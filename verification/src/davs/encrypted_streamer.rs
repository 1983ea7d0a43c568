//! Chunked authenticated-encryption streamer.
//!
//! A file is stored as a 19-byte nonce followed by sealed chunks: every full
//! 10_000-byte block of plaintext becomes a 10_016-byte ciphertext chunk, and
//! the terminal short (possibly empty) block becomes a final chunk carrying
//! the stream's "last" flag. Chunk counters are bound into the AEAD nonce, so
//! reordering or truncating chunks is detected.

use chacha20poly1305::XChaCha20Poly1305;
use chacha20poly1305::aead::NewAead;
use chacha20poly1305::aead::stream::NewStream;
use chacha20poly1305::aead::stream::StreamBE32;
use chacha20poly1305::aead::stream::StreamPrimitive;
use rand::RngCore;
use vstd::prelude::*;

verus! {

/// Bytes of plaintext in every non-terminal chunk.
pub const PLAIN_CHUNK_SIZE: usize = 10000;

/// Bytes the AEAD tag adds to each chunk.
pub const ENCRYPTION_OVERHEAD: usize = 16;

/// Bytes of ciphertext for a full chunk.
pub const ENCRYPTED_CHUNK_SIZE: usize = PLAIN_CHUNK_SIZE + ENCRYPTION_OVERHEAD;

/// Bytes of the random stream nonce written before the first chunk.
pub const NONCE_SIZE: usize = 19;

/// Largest plaintext a stream can hold: the chunk counter is 32 bits wide.
pub const MAX_PLAIN_SIZE: u64 = 10000 * 0xFFFF_FFFF;

/// Plaintext size of a stored stream of `enc` bytes: the nonce and one tag
/// per chunk are overhead.
pub open spec fn spec_decrypted_size(enc: int) -> int {
    let m = enc - NONCE_SIZE;
    m - ENCRYPTION_OVERHEAD * ((m + ENCRYPTED_CHUNK_SIZE - 1) / (ENCRYPTED_CHUNK_SIZE as int))
}

/// Stored size of a stream holding `l` bytes of plaintext: `l / 10000` full
/// chunks and one terminal chunk, each taxed one tag, after the nonce.
pub open spec fn spec_ciphertext_size(l: int) -> int {
    l + ENCRYPTION_OVERHEAD * (l / (PLAIN_CHUNK_SIZE as int) + 1) + NONCE_SIZE
}

/// Position in the stored stream of the chunk that holds plaintext offset `o`;
/// equals `spec_ciphertext_size` restricted to offsets.
pub open spec fn spec_encrypted_offset(o: int) -> int {
    o + ENCRYPTION_OVERHEAD * (o / (PLAIN_CHUNK_SIZE as int) + 1) + NONCE_SIZE
}

/// Plaintext size of a stored stream, computed from its byte length.
pub fn decrypted_size(enc_size: u64) -> (r: u64)
    requires
        enc_size >= NONCE_SIZE + ENCRYPTION_OVERHEAD,
    ensures
        r == spec_decrypted_size(enc_size as int),
{
    let m = enc_size - NONCE_SIZE as u64;
    let number_of_chunks = {
        let rhs = ENCRYPTED_CHUNK_SIZE as u64;
        let d = m / rhs;
        let r = m % rhs;
        if r > 0 {
            d + 1
        } else {
            d
        }
    };
    proof {
        lemma_ceil_div(m as int, ENCRYPTED_CHUNK_SIZE as int);
        lemma_chunk_overhead_fits(m as int);
    }
    enc_size - ENCRYPTION_OVERHEAD as u64 * number_of_chunks - NONCE_SIZE as u64
}

/// The ceiling division `(m + k - 1) / k` agrees with `m / k`, rounded up
/// when the remainder is non-zero.
proof fn lemma_ceil_div(m: int, k: int)
    requires
        m >= 0,
        k > 0,
    ensures
        (m + k - 1) / k == m / k + (if m % k > 0 { 1int } else { 0int }),
{
    vstd::arithmetic::div_mod::lemma_fundamental_div_mod(m, k);
    let q = m / k;
    let r = m % k;
    if r > 0 {
        assert(m + k - 1 == (q + 1) * k + (r - 1)) by (nonlinear_arith)
            requires
                m == k * q + r,
        ;
        vstd::arithmetic::div_mod::lemma_fundamental_div_mod_converse(m + k - 1, k, q + 1, r - 1);
    } else {
        assert(m + k - 1 == q * k + (k - 1)) by (nonlinear_arith)
            requires
                m == k * q + r,
                r == 0,
        ;
        vstd::arithmetic::div_mod::lemma_fundamental_div_mod_converse(m + k - 1, k, q, k - 1);
    }
}

/// The per-chunk overhead never exceeds the stored bytes after the nonce.
proof fn lemma_chunk_overhead_fits(m: int)
    requires
        m >= ENCRYPTION_OVERHEAD,
    ensures
        ENCRYPTION_OVERHEAD * (m / (ENCRYPTED_CHUNK_SIZE as int) + (if m % (
        ENCRYPTED_CHUNK_SIZE as int) > 0 {
            1int
        } else {
            0int
        })) <= m,
{
    let k = ENCRYPTED_CHUNK_SIZE as int;
    vstd::arithmetic::div_mod::lemma_fundamental_div_mod(m, k);
    let q = m / k;
    let r = m % k;
    assert(m == k * q + r);
    assert(q >= 0 && 0 <= r < k);
    if q == 0 {
        assert(r == m >= ENCRYPTION_OVERHEAD);
    } else {
        assert(k * q >= k * 1) by (nonlinear_arith)
            requires
                q >= 1,
                k == ENCRYPTED_CHUNK_SIZE as int,
        ;
        assert(ENCRYPTION_OVERHEAD * (q + 1) <= k * q + r) by (nonlinear_arith)
            requires
                q >= 1,
                r >= 0,
                k == ENCRYPTED_CHUNK_SIZE as int,
        ;
    }
}

/// Stored-stream offset of plaintext offset `dec_offset`: seeking there lands
/// just past the tag of the chunk the offset falls in.
pub fn encrypted_offset(dec_offset: u64) -> (r: u64)
    requires
        dec_offset <= MAX_PLAIN_SIZE,
    ensures
        r == spec_encrypted_offset(dec_offset as int),
{
    let number_of_chunks = dec_offset / PLAIN_CHUNK_SIZE as u64 + 1;
    proof {
        vstd::arithmetic::div_mod::lemma_fundamental_div_mod(
            dec_offset as int,
            PLAIN_CHUNK_SIZE as int,
        );
        assert(MAX_PLAIN_SIZE == 42949672950000);
        assert(number_of_chunks <= 0x1_0000_0000);
        assert(ENCRYPTION_OVERHEAD as u64 as int * number_of_chunks as int <= 0x10_0000_0000int);
        assert(dec_offset as int + ENCRYPTION_OVERHEAD as int * number_of_chunks as int
            + NONCE_SIZE as int <= u64::MAX as int);
    }
    dec_offset + ENCRYPTION_OVERHEAD as u64 * number_of_chunks + NONCE_SIZE as u64
}

/// Where a range read starts inside the stored stream: the first stored chunk
/// to decrypt, the seek position of that chunk, and how many leading plaintext
/// bytes of it fall before the requested offset.
pub struct ChunkedPosition {
    /// Stored-stream offset of the chunk holding the requested plaintext offset.
    pub beginning_of_active_chunk: u64,
    /// Plaintext bytes of that chunk that precede the requested offset.
    pub offset_in_active_chunk: u64,
    /// Counter of that chunk.
    pub active_chunk_counter: u64,
}

impl ChunkedPosition {
    /// Locates the chunk holding plaintext offset `plain_offset`.
    pub fn new(plain_offset: u64) -> (r: Self)
        requires
            plain_offset <= MAX_PLAIN_SIZE,
        ensures
            r.active_chunk_counter == plain_offset as int / PLAIN_CHUNK_SIZE as int,
            r.beginning_of_active_chunk == r.active_chunk_counter * ENCRYPTED_CHUNK_SIZE
                + NONCE_SIZE,
            r.offset_in_active_chunk == plain_offset as int % PLAIN_CHUNK_SIZE as int,
    {
        let active_chunk_counter = plain_offset / PLAIN_CHUNK_SIZE as u64;
        proof {
            vstd::arithmetic::div_mod::lemma_fundamental_div_mod(
                plain_offset as int,
                PLAIN_CHUNK_SIZE as int,
            );
            assert(active_chunk_counter <= 0xFFFF_FFFF);
            assert(active_chunk_counter as int * ENCRYPTED_CHUNK_SIZE as int + NONCE_SIZE as int
                <= u64::MAX as int);
        }
        let beginning_of_active_chunk = active_chunk_counter * ENCRYPTED_CHUNK_SIZE as u64
            + NONCE_SIZE as u64;
        let start = encrypted_offset(plain_offset);
        let offset_in_active_chunk = start - (beginning_of_active_chunk
            + ENCRYPTION_OVERHEAD as u64);
        Self { beginning_of_active_chunk, offset_in_active_chunk, active_chunk_counter }
    }
}

/// Byte `i` of what the XChaCha20-Poly1305 32-bit big-endian STREAM
/// primitive returns when sealing one segment: a function of the key, the
/// stream nonce, the segment position, the last-segment flag and the
/// plaintext alone.
pub uninterp spec fn seal_byte(
    key: Seq<u8>,
    nonce: Seq<u8>,
    counter: int,
    last: bool,
    plain: Seq<u8>,
    i: int,
) -> u8;

/// The sealed segment: the plaintext's length plus the 16-byte tag, each byte
/// a function of the inputs alone.
pub open spec fn seal_of(
    key: Seq<u8>,
    nonce: Seq<u8>,
    counter: int,
    last: bool,
    plain: Seq<u8>,
) -> Seq<u8> {
    Seq::new((plain.len() + ENCRYPTION_OVERHEAD) as nat, |i| seal_byte(key, nonce, counter, last, plain, i))
}

/// The stored form of `plain` when sealed chunk by chunk with counters
/// starting at `counter`: full chunks are sealed as intermediate segments and
/// the terminal short (possibly empty) chunk carries the last flag.
pub open spec fn cipher_from(key: Seq<u8>, nonce: Seq<u8>, counter: int, plain: Seq<u8>) -> Seq<u8>
    decreases plain.len(),
{
    if plain.len() < PLAIN_CHUNK_SIZE {
        seal_of(key, nonce, counter, true, plain)
    } else {
        seal_of(key, nonce, counter, false, plain.take(PLAIN_CHUNK_SIZE as int)) + cipher_from(
            key,
            nonce,
            counter + 1,
            plain.skip(PLAIN_CHUNK_SIZE as int),
        )
    }
}

/// The whole stored stream: the nonce, then the sealed chunks.
pub open spec fn blob_of(key: Seq<u8>, nonce: Seq<u8>, plain: Seq<u8>) -> Seq<u8> {
    nonce + cipher_from(key, nonce, 0, plain)
}

/// Stored bytes of the sealed chunks of `l` plaintext bytes, nonce excluded.
pub open spec fn spec_cipher_len(l: int) -> int {
    l + ENCRYPTION_OVERHEAD * (l / (PLAIN_CHUNK_SIZE as int) + 1)
}

/// Errors of the decrypt paths.
#[derive(Debug, Clone, Copy, PartialEq, Eq, Structural)]
pub enum StreamError {
    /// The stored stream cannot have been produced by the encrypt path:
    /// it is shorter than a nonce and one tag, or cut at a chunk boundary.
    Malformed,
    /// A chunk failed AEAD verification.
    Corrupt,
}

/// Relies on `aead::stream::StreamBE32<XChaCha20Poly1305>::encrypt`
/// (chacha20poly1305's re-export): sealing a segment at a position is
/// deterministic in key, nonce, position, last flag and plaintext, and
/// appends the 16-byte Poly1305 tag to the plaintext length.
#[verifier::external_body]
fn seal_chunk(key: &[u8; 32], nonce: &[u8], counter: u32, last: bool, plain: &[u8]) -> (r: Vec<u8>)
    requires
        nonce@.len() == NONCE_SIZE,
        plain@.len() <= PLAIN_CHUNK_SIZE,
    ensures
        r@ == seal_of(key@, nonce@, counter as int, last, plain@),
        r@ == Seq::new(
            (plain@.len() + ENCRYPTION_OVERHEAD) as nat,
            (|i| seal_byte(key@, nonce@, counter as int, last, plain@, i)),
        ),
{
    let aead = XChaCha20Poly1305::new(key.as_ref().into());
    let stream = StreamBE32::from_aead(aead, nonce.into());
    stream.encrypt(counter, last, plain).expect("chunk within AEAD limits")
}

/// Relies on `aead::stream::StreamBE32<XChaCha20Poly1305>::decrypt`: it
/// returns the unique plaintext whose sealing at this key, nonce, position
/// and flag gives the segment, and fails on any other input.
#[verifier::external_body]
fn open_chunk(key: &[u8; 32], nonce: &[u8], counter: u32, last: bool, ct: &[u8]) -> (r: Option<
    Vec<u8>,
>)
    requires
        nonce@.len() == NONCE_SIZE,
    ensures
        r matches Some(p) ==> ct@ == seal_of(key@, nonce@, counter as int, last, p@) && p@.len()
            + ENCRYPTION_OVERHEAD == ct@.len(),
        r is None ==> forall|p: Seq<u8>|
            ct@ != #[trigger] seal_of(key@, nonce@, counter as int, last, p),
        r matches Some(q) ==> forall|p: Seq<u8>|
            ct@ == #[trigger] seal_of(key@, nonce@, counter as int, last, p) ==> q@ == p,
{
    let aead = XChaCha20Poly1305::new(key.as_ref().into());
    let stream = StreamBE32::from_aead(aead, nonce.into());
    stream.decrypt(counter, last, ct).ok()
}

/// Relies on rand's `OsRng::fill_bytes`: fills the nonce from the operating
/// system's entropy source; nothing is assumed of the values drawn.
#[verifier::external_body]
fn random_nonce() -> (r: Vec<u8>)
    ensures
        r@.len() == NONCE_SIZE,
{
    let mut nonce = [0u8; NONCE_SIZE];
    rand::rngs::OsRng.fill_bytes(&mut nonce);
    nonce.to_vec()
}

/// Copies `data[start..end]` into a fresh buffer.
fn copy_range(data: &[u8], start: usize, end: usize) -> (r: Vec<u8>)
    requires
        start <= end <= data@.len(),
    ensures
        r@ == data@.subrange(start as int, end as int),
{
    let mut v: Vec<u8> = Vec::new();
    let mut j: usize = start;
    while j < end
        invariant
            start <= j <= end <= data@.len(),
            v@ == data@.subrange(start as int, j as int),
        decreases end - j,
    {
        v.push(data[j]);
        proof {
            assert(data@.subrange(start as int, j + 1 as int) =~= data@.subrange(
                start as int,
                j as int,
            ).push(data@[j as int]));
        }
        j += 1;
    }
    v
}

/// The sealed chunks of `l` plaintext bytes take `spec_cipher_len(l)` stored
/// bytes, whatever the key, nonce and starting counter.
pub proof fn lemma_cipher_from_len(key: Seq<u8>, nonce: Seq<u8>, counter: int, plain: Seq<u8>)
    ensures
        cipher_from(key, nonce, counter, plain).len() == spec_cipher_len(plain.len() as int),
        spec_cipher_len(plain.len() as int) >= plain.len() + ENCRYPTION_OVERHEAD,
    decreases plain.len(),
{
    let p = PLAIN_CHUNK_SIZE as int;
    let l = plain.len() as int;
    vstd::arithmetic::div_mod::lemma_fundamental_div_mod(l, p);
    if l < p {
        assert(l / p == 0) by {
            vstd::arithmetic::div_mod::lemma_fundamental_div_mod_converse(l, p, 0, l);
        }
    } else {
        lemma_cipher_from_len(key, nonce, counter + 1, plain.skip(p));
        let l2 = l - p;
        vstd::arithmetic::div_mod::lemma_fundamental_div_mod(l2, p);
        assert(l / p == l2 / p + 1 && l % p == l2 % p) by {
            vstd::arithmetic::div_mod::lemma_fundamental_div_mod_converse(
                l,
                p,
                l2 / p + 1,
                l2 % p,
            );
        }
    }
}

/// Encrypts a whole buffer under a caller-chosen nonce: the stored stream is
/// exactly `blob_of` the inputs.
pub fn encrypt_bytes(key: &[u8; 32], nonce: &[u8], plain: &[u8]) -> (r: Vec<u8>)
    requires
        nonce@.len() == NONCE_SIZE,
        plain@.len() <= MAX_PLAIN_SIZE,
    ensures
        r@ == blob_of(key@, nonce@, plain@),
{
    let mut out: Vec<u8> = copy_range(nonce, 0, nonce.len());
    let mut i: usize = 0;
    proof {
        assert(out@ =~= nonce@);
        assert(plain@.skip(0) =~= plain@);
        assert(out@.skip(NONCE_SIZE as int) =~= Seq::<u8>::empty());
        assert(Seq::<u8>::empty() + cipher_from(key@, nonce@, 0, plain@) =~= cipher_from(
            key@,
            nonce@,
            0,
            plain@,
        ));
    }
    while plain.len() - i >= PLAIN_CHUNK_SIZE
        invariant
            nonce@.len() == NONCE_SIZE,
            plain@.len() <= MAX_PLAIN_SIZE,
            i <= plain@.len(),
            i as int % PLAIN_CHUNK_SIZE as int == 0,
            out@.len() >= NONCE_SIZE,
            out@.subrange(0, NONCE_SIZE as int) == nonce@,
            cipher_from(key@, nonce@, 0, plain@) == out@.skip(NONCE_SIZE as int) + cipher_from(
                key@,
                nonce@,
                i as int / PLAIN_CHUNK_SIZE as int,
                plain@.skip(i as int),
            ),
        decreases plain@.len() - i,
    {
        let ghost prev_out = out@;
        let ghost ctr_int = i as int / PLAIN_CHUNK_SIZE as int;
        proof {
            vstd::arithmetic::div_mod::lemma_fundamental_div_mod(i as int, PLAIN_CHUNK_SIZE as int);
            assert(i as int == PLAIN_CHUNK_SIZE * ctr_int);
            assert(ctr_int <= 0xFFFF_FFFE) by (nonlinear_arith)
                requires
                    i as int == PLAIN_CHUNK_SIZE * ctr_int,
                    i + PLAIN_CHUNK_SIZE <= plain@.len() <= MAX_PLAIN_SIZE,
                    MAX_PLAIN_SIZE == 10000 * 0xFFFF_FFFF,
            ;
        }
        let counter = (i / PLAIN_CHUNK_SIZE) as u32;
        let chunk = copy_range(plain, i, i + PLAIN_CHUNK_SIZE);
        let mut ct = seal_chunk(key, nonce, counter, false, chunk.as_slice());
        out.append(&mut ct);
        proof {
            let rest = plain@.skip(i as int);
            assert(rest.take(PLAIN_CHUNK_SIZE as int) =~= plain@.subrange(
                i as int,
                i as int + PLAIN_CHUNK_SIZE,
            ));
            assert(rest.skip(PLAIN_CHUNK_SIZE as int) =~= plain@.skip(
                i as int + PLAIN_CHUNK_SIZE,
            ));
            assert(cipher_from(key@, nonce@, ctr_int, rest) == seal_of(
                key@,
                nonce@,
                ctr_int,
                false,
                rest.take(PLAIN_CHUNK_SIZE as int),
            ) + cipher_from(key@, nonce@, ctr_int + 1, rest.skip(PLAIN_CHUNK_SIZE as int)));
            assert(out@.skip(NONCE_SIZE as int) =~= prev_out.skip(NONCE_SIZE as int) + seal_of(
                key@,
                nonce@,
                ctr_int,
                false,
                rest.take(PLAIN_CHUNK_SIZE as int),
            ));
            assert(prev_out.skip(NONCE_SIZE as int) + (seal_of(
                key@,
                nonce@,
                ctr_int,
                false,
                rest.take(PLAIN_CHUNK_SIZE as int),
            ) + cipher_from(key@, nonce@, ctr_int + 1, rest.skip(PLAIN_CHUNK_SIZE as int)))
                =~= out@.skip(NONCE_SIZE as int) + cipher_from(
                key@,
                nonce@,
                ctr_int + 1,
                rest.skip(PLAIN_CHUNK_SIZE as int),
            ));
            assert(out@.subrange(0, NONCE_SIZE as int) =~= nonce@);
            vstd::arithmetic::div_mod::lemma_fundamental_div_mod_converse(
                i as int + PLAIN_CHUNK_SIZE,
                PLAIN_CHUNK_SIZE as int,
                ctr_int + 1,
                0,
            );
        }
        i += PLAIN_CHUNK_SIZE;
    }
    let ghost ctr_int = i as int / PLAIN_CHUNK_SIZE as int;
    proof {
        vstd::arithmetic::div_mod::lemma_fundamental_div_mod(i as int, PLAIN_CHUNK_SIZE as int);
        assert(ctr_int <= 0xFFFF_FFFF) by (nonlinear_arith)
            requires
                i as int == PLAIN_CHUNK_SIZE * ctr_int,
                i <= MAX_PLAIN_SIZE,
                MAX_PLAIN_SIZE == 10000 * 0xFFFF_FFFF,
        ;
    }
    let counter = (i / PLAIN_CHUNK_SIZE) as u32;
    let ghost prev_out = out@;
    let chunk = copy_range(plain, i, plain.len());
    let mut ct = seal_chunk(key, nonce, counter, true, chunk.as_slice());
    out.append(&mut ct);
    proof {
        let rest = plain@.skip(i as int);
        assert(rest =~= plain@.subrange(i as int, plain@.len() as int));
        assert(cipher_from(key@, nonce@, ctr_int, rest) == seal_of(
            key@,
            nonce@,
            ctr_int,
            true,
            rest,
        ));
        assert(out@ =~= prev_out + seal_of(key@, nonce@, ctr_int, true, rest));
        assert(out@ =~= nonce@ + cipher_from(key@, nonce@, 0, plain@));
    }
    out
}

/// Encrypts a whole buffer under a fresh random nonce, written first: the
/// result is `blob_of` the key, its own leading nonce, and the plaintext.
pub fn encrypt_blob(key: &[u8; 32], plain: &[u8]) -> (r: Vec<u8>)
    requires
        plain@.len() <= MAX_PLAIN_SIZE,
    ensures
        r@.len() > NONCE_SIZE,
        r@ == blob_of(key@, r@.subrange(0, NONCE_SIZE as int), plain@),
{
    let nonce = random_nonce();
    let out = encrypt_bytes(key, nonce.as_slice(), plain);
    proof {
        lemma_cipher_from_len(key@, nonce@, 0, plain@);
        assert(out@.subrange(0, NONCE_SIZE as int) =~= nonce@);
    }
    out
}

/// True when `blob` is the stored stream of plaintext `p` under `key` with
/// nonce `n`, for a plaintext the 32-bit chunk counter can cover.
pub open spec fn is_stream_of(key: Seq<u8>, blob: Seq<u8>, n: Seq<u8>, p: Seq<u8>) -> bool {
    &&& n.len() == NONCE_SIZE
    &&& p.len() <= MAX_PLAIN_SIZE
    &&& blob == blob_of(key, n, p)
}

/// Stored bytes of chunk `j` within a nonce-less cipher sequence.
pub open spec fn enc_slice(s: Seq<u8>, j: int) -> Seq<u8> {
    s.subrange(j * ENCRYPTED_CHUNK_SIZE, (j + 1) * ENCRYPTED_CHUNK_SIZE)
}

/// Plaintext bytes of chunk `j`.
pub open spec fn pt_slice(p: Seq<u8>, j: int) -> Seq<u8> {
    p.subrange(j * PLAIN_CHUNK_SIZE, (j + 1) * PLAIN_CHUNK_SIZE)
}

/// Number of full chunks of `l` plaintext bytes; the terminal short chunk
/// comes after them.
pub open spec fn full_chunks(l: int) -> int {
    l / (PLAIN_CHUNK_SIZE as int)
}

/// Plaintext bytes of the terminal short chunk.
pub open spec fn last_pt(p: Seq<u8>) -> Seq<u8> {
    p.skip(full_chunks(p.len() as int) * PLAIN_CHUNK_SIZE)
}

/// One chunk of plaintext shifts `full_chunks` down by one.
proof fn lemma_full_chunks_step(l: int)
    requires
        l >= PLAIN_CHUNK_SIZE,
    ensures
        full_chunks(l) == full_chunks(l - PLAIN_CHUNK_SIZE) + 1,
        l % (PLAIN_CHUNK_SIZE as int) == (l - PLAIN_CHUNK_SIZE) % (PLAIN_CHUNK_SIZE as int),
{
    let p = PLAIN_CHUNK_SIZE as int;
    vstd::arithmetic::div_mod::lemma_fundamental_div_mod(l - p, p);
    vstd::arithmetic::div_mod::lemma_fundamental_div_mod_converse(
        l,
        p,
        (l - p) / p + 1,
        (l - p) % p,
    );
}

/// Decomposes the sealed chunks of `p`: chunk `j` of the stored bytes is the
/// sealing of chunk `j` of the plaintext, and the tail past the full chunks
/// is the sealing of the terminal short chunk.
proof fn lemma_cipher_chunks(key: Seq<u8>, n: Seq<u8>, c: int, p: Seq<u8>)
    ensures
        cipher_from(key, n, c, p).len() == spec_cipher_len(p.len() as int),
        forall|j: int|
            0 <= j < full_chunks(p.len() as int) ==> #[trigger] enc_slice(
                cipher_from(key, n, c, p),
                j,
            ) == seal_of(key, n, c + j, false, pt_slice(p, j)),
        cipher_from(key, n, c, p).skip(full_chunks(p.len() as int) * ENCRYPTED_CHUNK_SIZE)
            == seal_of(key, n, c + full_chunks(p.len() as int), true, last_pt(p)),
    decreases p.len(),
{
    lemma_cipher_from_len(key, n, c, p);
    let pc = PLAIN_CHUNK_SIZE as int;
    let ec = ENCRYPTED_CHUNK_SIZE as int;
    let l = p.len() as int;
    let fc = full_chunks(l);
    let cs = cipher_from(key, n, c, p);
    if l < pc {
        vstd::arithmetic::div_mod::lemma_fundamental_div_mod_converse(l, pc, 0, l);
        assert(fc == 0);
        assert(cs.skip(0) =~= cs);
        assert(last_pt(p) =~= p);
    } else {
        let head = seal_of(key, n, c, false, p.take(pc));
        let tail = cipher_from(key, n, c + 1, p.skip(pc));
        assert(head.len() == ec);
        lemma_cipher_chunks(key, n, c + 1, p.skip(pc));
        lemma_full_chunks_step(l);
        let fct = full_chunks(l - pc);
        assert(p.skip(pc).len() == l - pc);
        assert forall|j: int| 0 <= j < fc implies #[trigger] enc_slice(cs, j) == seal_of(
            key,
            n,
            c + j,
            false,
            pt_slice(p, j),
        ) by {
            if j == 0 {
                assert(enc_slice(cs, 0) =~= head);
                assert(pt_slice(p, 0) =~= p.take(pc));
            } else {
                assert(enc_slice(tail, j - 1) == seal_of(
                    key,
                    n,
                    c + 1 + (j - 1),
                    false,
                    pt_slice(p.skip(pc), j - 1),
                ));
                assert(enc_slice(cs, j) =~= enc_slice(tail, j - 1));
                assert(pt_slice(p.skip(pc), j - 1) =~= pt_slice(p, j));
            }
        }
        assert(tail.skip(fct * ec) == seal_of(key, n, c + 1 + fct, true, last_pt(p.skip(pc))));
        assert(cs.skip(fc * ec) =~= tail.skip(fct * ec));
        assert(last_pt(p.skip(pc)) =~= last_pt(p));
    }
}

/// Composes sealed chunks back: a byte sequence that slices into the sealings
/// of the chunks of `p` is exactly the sealed form of `p`.
proof fn lemma_chunks_compose(key: Seq<u8>, n: Seq<u8>, c: int, p: Seq<u8>, buf: Seq<u8>)
    requires
        buf.len() == spec_cipher_len(p.len() as int),
        forall|j: int|
            0 <= j < full_chunks(p.len() as int) ==> #[trigger] enc_slice(buf, j) == seal_of(
                key,
                n,
                c + j,
                false,
                pt_slice(p, j),
            ),
        buf.skip(full_chunks(p.len() as int) * ENCRYPTED_CHUNK_SIZE) == seal_of(
            key,
            n,
            c + full_chunks(p.len() as int),
            true,
            last_pt(p),
        ),
    ensures
        buf == cipher_from(key, n, c, p),
    decreases p.len(),
{
    let pc = PLAIN_CHUNK_SIZE as int;
    let ec = ENCRYPTED_CHUNK_SIZE as int;
    let l = p.len() as int;
    let fc = full_chunks(l);
    lemma_cipher_from_len(key, n, c, p);
    if l < pc {
        vstd::arithmetic::div_mod::lemma_fundamental_div_mod_converse(l, pc, 0, l);
        assert(fc == 0);
        assert(fc * (ENCRYPTED_CHUNK_SIZE as int) == 0 && fc * (PLAIN_CHUNK_SIZE as int) == 0)
            by (nonlinear_arith)
            requires
                fc == 0,
        ;
        assert(buf.skip(0) =~= buf);
        assert(last_pt(p) =~= p);
        assert(buf == seal_of(key, n, c + 0, true, p));
    } else {
        lemma_full_chunks_step(l);
        let fct = full_chunks(l - pc);
        assert(fc >= 1);
        let head = seal_of(key, n, c, false, p.take(pc));
        assert(pt_slice(p, 0) =~= p.take(pc));
        assert(0 * (ENCRYPTED_CHUNK_SIZE as int) == 0 && 1 * (ENCRYPTED_CHUNK_SIZE as int)
            == ENCRYPTED_CHUNK_SIZE) by (nonlinear_arith);
        assert(enc_slice(buf, 0) == head);
        assert(head.len() == pc + ENCRYPTION_OVERHEAD);
        let buft = buf.skip(ec);
        assert(p.skip(pc).len() == l - pc);
        assert forall|j: int| 0 <= j < fct implies #[trigger] enc_slice(buft, j) == seal_of(
            key,
            n,
            c + 1 + j,
            false,
            pt_slice(p.skip(pc), j),
        ) by {
            assert(enc_slice(buf, j + 1) == seal_of(key, n, c + (j + 1), false, pt_slice(p, j + 1)));
            assert(enc_slice(buft, j) =~= enc_slice(buf, j + 1));
            assert(pt_slice(p.skip(pc), j) =~= pt_slice(p, j + 1));
        }
        vstd::arithmetic::div_mod::lemma_fundamental_div_mod(l, pc);
        assert(buf.len() == l + ENCRYPTION_OVERHEAD * (fc + 1));
        assert(fc * ec + ENCRYPTION_OVERHEAD <= buf.len() && fct * ec + ec == fc * ec)
            by (nonlinear_arith)
            requires
                pc == PLAIN_CHUNK_SIZE as int,
                ec == ENCRYPTED_CHUNK_SIZE as int,
                ENCRYPTED_CHUNK_SIZE == PLAIN_CHUNK_SIZE + ENCRYPTION_OVERHEAD,
                fc == fct + 1,
                fct >= 0,
                l == pc * fc + l % pc,
                l % pc >= 0,
                buf.len() == l + ENCRYPTION_OVERHEAD * (fc + 1),
        ;
        assert(buft.skip(fct * ec) =~= buf.skip(fc * ec));
        assert(last_pt(p.skip(pc)) =~= last_pt(p));
        lemma_chunks_compose(key, n, c + 1, p.skip(pc), buft);
        assert(buf =~= enc_slice(buf, 0) + buft);
        assert(cipher_from(key, n, c, p) == head + cipher_from(key, n, c + 1, p.skip(pc)));
    }
}

/// Decrypts a whole stored stream. Succeeds exactly on streams the encrypt
/// path can produce under this key, and then returns the unique plaintext
/// whose stored form is `blob`.
pub fn decrypt_blob(key: &[u8; 32], blob: &[u8]) -> (r: Result<Vec<u8>, StreamError>)
    ensures
        r matches Ok(p) ==> blob@ == blob_of(
            key@,
            blob@.subrange(0, NONCE_SIZE as int),
            p@,
        ),
        forall|n: Seq<u8>, p: Seq<u8>|
            #[trigger] is_stream_of(key@, blob@, n, p) ==> (r matches Ok(q) && q@ == p),
{
    let ghost kv = key@;
    let ghost bv = blob@;
    if blob.len() < NONCE_SIZE + ENCRYPTION_OVERHEAD {
        proof {
            assert forall|n: Seq<u8>, p: Seq<u8>| !is_stream_of(kv, bv, n, p) by {
                if is_stream_of(kv, bv, n, p) {
                    lemma_cipher_from_len(kv, n, 0, p);
                }
            }
        }
        return Err(StreamError::Malformed);
    }
    let nonce = copy_range(blob, 0, NONCE_SIZE);
    proof {
        assert forall|n: Seq<u8>, p: Seq<u8>| #[trigger] is_stream_of(kv, bv, n, p) implies n
            == nonce@ by {
            lemma_cipher_from_len(kv, n, 0, p);
            assert(bv.subrange(0, NONCE_SIZE as int) =~= n);
        }
    }
    let mut out: Vec<u8> = Vec::new();
    let mut pos: usize = NONCE_SIZE;
    let mut ctr: u32 = 0;
    proof {
        assert(out@ =~= Seq::<u8>::empty());
    }
    while blob.len() - pos > ENCRYPTED_CHUNK_SIZE
        invariant
            kv == key@,
            bv == blob@,
            blob@.len() >= NONCE_SIZE + ENCRYPTION_OVERHEAD,
            NONCE_SIZE <= pos <= blob@.len(),
            nonce@ == blob@.subrange(0, NONCE_SIZE as int),
            nonce@.len() == NONCE_SIZE,
            pos as int == NONCE_SIZE + ctr as int * ENCRYPTED_CHUNK_SIZE,
            out@.len() == ctr as int * PLAIN_CHUNK_SIZE,
            forall|j: int|
                0 <= j < ctr as int ==> #[trigger] enc_slice(blob@.skip(NONCE_SIZE as int), j)
                    == seal_of(key@, nonce@, j, false, pt_slice(out@, j)),
            forall|n: Seq<u8>, p: Seq<u8>|
                #[trigger] is_stream_of(kv, bv, n, p) ==> n == nonce@ && ctr as int <= full_chunks(
                    p.len() as int,
                ) && out@ == p.take(ctr as int * PLAIN_CHUNK_SIZE),
        decreases blob@.len() - pos,
    {
        let ghost out_prev = out@;
        proof {
            assert forall|n: Seq<u8>, p: Seq<u8>| #[trigger] is_stream_of(kv, bv, n, p) implies (ctr
                as int) < full_chunks(p.len() as int) by {
                lemma_cipher_from_len(kv, n, 0, p);
                vstd::arithmetic::div_mod::lemma_fundamental_div_mod(
                    p.len() as int,
                    PLAIN_CHUNK_SIZE as int,
                );
                let l = p.len() as int;
                let fc = full_chunks(l);
                let s_rem = l % (PLAIN_CHUNK_SIZE as int);
                assert(bv == n + cipher_from(kv, n, 0, p));
                assert(bv.len() == NONCE_SIZE + spec_cipher_len(l));
                assert((ctr as int) < fc) by (nonlinear_arith)
                    requires
                        ENCRYPTED_CHUNK_SIZE == PLAIN_CHUNK_SIZE + ENCRYPTION_OVERHEAD,
                        bv.len() - pos > ENCRYPTED_CHUNK_SIZE,
                        bv.len() == NONCE_SIZE + spec_cipher_len(l),
                        spec_cipher_len(l) == l + ENCRYPTION_OVERHEAD * (fc + 1),
                        l == PLAIN_CHUNK_SIZE as int * fc + s_rem,
                        0 <= s_rem < PLAIN_CHUNK_SIZE,
                        pos == NONCE_SIZE + ctr as int * ENCRYPTED_CHUNK_SIZE,
                        ctr as int <= fc,
                ;
            }
        }
        let ct = copy_range(blob, pos, pos + ENCRYPTED_CHUNK_SIZE);
        proof {
            assert forall|n: Seq<u8>, p: Seq<u8>| #[trigger] is_stream_of(kv, bv, n, p) implies ct@
                == seal_of(kv, nonce@, ctr as int, false, pt_slice(p, ctr as int)) by {
                lemma_cipher_chunks(kv, n, 0, p);
                assert(bv.skip(NONCE_SIZE as int) =~= cipher_from(kv, n, 0, p));
                assert(enc_slice(cipher_from(kv, n, 0, p), ctr as int) == seal_of(
                    kv,
                    n,
                    ctr as int,
                    false,
                    pt_slice(p, ctr as int),
                ));
                assert(ct@ =~= enc_slice(bv.skip(NONCE_SIZE as int), ctr as int));
            }
        }
        match open_chunk(key, nonce.as_slice(), ctr, false, ct.as_slice()) {
            None => {
                proof {
                    assert forall|n: Seq<u8>, p: Seq<u8>| !is_stream_of(kv, bv, n, p) by {
                        if is_stream_of(kv, bv, n, p) {
                            assert(ct@ == seal_of(key@, nonce@, ctr as int, false, pt_slice(p, ctr as int)));
                            assert(ct@ != seal_of(key@, nonce@, ctr as int, false, pt_slice(p, ctr as int)));
                        }
                    }
                }
                return Err(StreamError::Corrupt);
            },
            Some(mut pt) => {
                let ghost pt_v0 = pt@;
                proof {
                    assert(ct@ == seal_of(key@, nonce@, ctr as int, false, pt_v0));
                    assert(pt_v0.len() == PLAIN_CHUNK_SIZE);
                }
                out.append(&mut pt);
                if ctr >= 0xFFFF_FFFF {
                    proof {
                        assert forall|n: Seq<u8>, p: Seq<u8>| !is_stream_of(kv, bv, n, p) by {
                            if is_stream_of(kv, bv, n, p) {
                                vstd::arithmetic::div_mod::lemma_fundamental_div_mod(
                                    p.len() as int,
                                    PLAIN_CHUNK_SIZE as int,
                                );
                                let l = p.len() as int;
                                let fc = full_chunks(l);
                                let s_rem = l % (PLAIN_CHUNK_SIZE as int);
                                assert(fc <= 0xFFFF_FFFF) by (nonlinear_arith)
                                    requires
                                        l == PLAIN_CHUNK_SIZE as int * fc + s_rem,
                                        s_rem >= 0,
                                        l <= MAX_PLAIN_SIZE,
                                        MAX_PLAIN_SIZE == 10000 * 0xFFFF_FFFF,
                                        PLAIN_CHUNK_SIZE == 10000,
                                ;
                                assert((ctr as int) < fc);
                            }
                        }
                    }
                    return Err(StreamError::Malformed);
                }
                proof {
                    assert((ctr as int + 1) * PLAIN_CHUNK_SIZE == ctr as int * PLAIN_CHUNK_SIZE
                        + PLAIN_CHUNK_SIZE) by (nonlinear_arith);
                    assert(out@ == out_prev + pt_v0);
                    assert(out@.len() == (ctr as int + 1) * PLAIN_CHUNK_SIZE);
                    assert(pt_slice(out@, ctr as int) =~= pt_v0);
                    assert forall|j: int| 0 <= j < ctr as int + 1 implies #[trigger] enc_slice(
                        blob@.skip(NONCE_SIZE as int),
                        j,
                    ) == seal_of(key@, nonce@, j, false, pt_slice(out@, j)) by {
                        if j < ctr as int {
                            assert(enc_slice(blob@.skip(NONCE_SIZE as int), j) == seal_of(
                                key@,
                                nonce@,
                                j,
                                false,
                                pt_slice(out_prev, j),
                            ));
                            assert(pt_slice(out@, j) =~= pt_slice(out_prev, j));
                        } else {
                            assert(enc_slice(blob@.skip(NONCE_SIZE as int), ctr as int) =~= ct@);
                            assert(pt_slice(out@, ctr as int) == pt_v0);
                        }
                    }
                    assert forall|n: Seq<u8>, p: Seq<u8>| #[trigger] is_stream_of(kv, bv, n, p)
                        implies out@ == p.take((ctr as int + 1) * PLAIN_CHUNK_SIZE) by {
                        assert(ct@ == seal_of(key@, nonce@, ctr as int, false, pt_slice(p, ctr as int)));
                        assert(pt_v0 == pt_slice(p, ctr as int));
                        assert(out@ =~= p.take(ctr as int * PLAIN_CHUNK_SIZE) + pt_slice(
                            p,
                            ctr as int,
                        ));
                        assert(p.take(ctr as int * PLAIN_CHUNK_SIZE) + pt_slice(p, ctr as int)
                            =~= p.take((ctr as int + 1) * PLAIN_CHUNK_SIZE));
                    }
                }
                proof {
                    assert((ctr as int + 1) * ENCRYPTED_CHUNK_SIZE == ctr as int
                        * ENCRYPTED_CHUNK_SIZE + ENCRYPTED_CHUNK_SIZE) by (nonlinear_arith);
                }
                ctr = ctr + 1;
                pos = pos + ENCRYPTED_CHUNK_SIZE;
            },
        }
    }
    let rem = blob.len() - pos;
    proof {
        assert forall|n: Seq<u8>, p: Seq<u8>| #[trigger] is_stream_of(kv, bv, n, p) implies ctr
            as int == full_chunks(p.len() as int) && rem as int == p.len() as int % (
        PLAIN_CHUNK_SIZE as int) + ENCRYPTION_OVERHEAD by {
            lemma_cipher_from_len(kv, n, 0, p);
            vstd::arithmetic::div_mod::lemma_fundamental_div_mod(
                p.len() as int,
                PLAIN_CHUNK_SIZE as int,
            );
            let l = p.len() as int;
            let fc = full_chunks(l);
            let s_rem = l % (PLAIN_CHUNK_SIZE as int);
            assert(bv == n + cipher_from(kv, n, 0, p));
            assert(bv.len() == NONCE_SIZE + spec_cipher_len(l));
            assert(ctr as int == fc && bv.len() - pos == s_rem + ENCRYPTION_OVERHEAD)
                by (nonlinear_arith)
                requires
                    ENCRYPTED_CHUNK_SIZE == PLAIN_CHUNK_SIZE + ENCRYPTION_OVERHEAD,
                    bv.len() - pos <= ENCRYPTED_CHUNK_SIZE,
                    bv.len() - pos >= 0,
                    bv.len() == NONCE_SIZE + spec_cipher_len(l),
                    spec_cipher_len(l) == l + ENCRYPTION_OVERHEAD * (fc + 1),
                    l == PLAIN_CHUNK_SIZE as int * fc + s_rem,
                    0 <= s_rem < PLAIN_CHUNK_SIZE,
                    pos == NONCE_SIZE + ctr as int * ENCRYPTED_CHUNK_SIZE,
                    ctr as int <= fc,
            ;
        }
    }
    if rem < ENCRYPTION_OVERHEAD || rem == ENCRYPTED_CHUNK_SIZE {
        proof {
            assert forall|n: Seq<u8>, p: Seq<u8>| !is_stream_of(kv, bv, n, p) by {
                if is_stream_of(kv, bv, n, p) {
                    vstd::arithmetic::div_mod::lemma_fundamental_div_mod(
                        p.len() as int,
                        PLAIN_CHUNK_SIZE as int,
                    );
                }
            }
        }
        return Err(StreamError::Malformed);
    }
    let ct = copy_range(blob, pos, blob.len());
    proof {
        assert forall|n: Seq<u8>, p: Seq<u8>| #[trigger] is_stream_of(kv, bv, n, p) implies ct@
            == seal_of(kv, nonce@, ctr as int, true, last_pt(p)) by {
            lemma_cipher_chunks(kv, n, 0, p);
            assert(bv.skip(NONCE_SIZE as int) =~= cipher_from(kv, n, 0, p));
            assert(cipher_from(kv, n, 0, p).skip(
                full_chunks(p.len() as int) * ENCRYPTED_CHUNK_SIZE,
            ) == seal_of(kv, n, full_chunks(p.len() as int), true, last_pt(p)));
            assert(ct@ =~= bv.skip(NONCE_SIZE as int).skip(
                full_chunks(p.len() as int) * ENCRYPTED_CHUNK_SIZE,
            ));
        }
    }
    match open_chunk(key, nonce.as_slice(), ctr, true, ct.as_slice()) {
        None => {
            proof {
                assert forall|n: Seq<u8>, p: Seq<u8>| !is_stream_of(kv, bv, n, p) by {
                    if is_stream_of(kv, bv, n, p) {
                        assert(ct@ == seal_of(kv, nonce@, ctr as int, true, last_pt(p)));
                    }
                }
            }
            Err(StreamError::Corrupt)
        },
        Some(mut pt) => {
            let ghost out_prev = out@;
            let ghost pt_v = pt@;
            proof {
                assert(ct@ == seal_of(key@, nonce@, ctr as int, true, pt_v));
            }
            out.append(&mut pt);
            proof {
                let pc = PLAIN_CHUNK_SIZE as int;
                let ec = ENCRYPTED_CHUNK_SIZE as int;
                let buf = bv.skip(NONCE_SIZE as int);
                assert(out@ == out_prev + pt_v);
                assert(pt_v.len() == rem as int - ENCRYPTION_OVERHEAD);
                assert(out@.len() as int == ctr as int * pc + (rem as int - ENCRYPTION_OVERHEAD));
                vstd::arithmetic::div_mod::lemma_fundamental_div_mod_converse(
                    out@.len() as int,
                    pc,
                    ctr as int,
                    rem as int - ENCRYPTION_OVERHEAD,
                );
                assert(full_chunks(out@.len() as int) == ctr as int);
                assert forall|j: int| 0 <= j < ctr as int implies #[trigger] enc_slice(buf, j)
                    == seal_of(kv, nonce@, j, false, pt_slice(out@, j)) by {
                    assert(pt_slice(out@, j) =~= pt_slice(out_prev, j));
                }
                assert(last_pt(out@) == out@.skip(ctr as int * pc));
                assert(last_pt(out@) =~= pt_v);
                assert(buf.skip(ctr as int * ec) =~= ct@);
                lemma_chunks_compose(kv, nonce@, 0, out@, buf);
                assert(bv =~= nonce@ + buf);
                assert forall|n: Seq<u8>, p: Seq<u8>| #[trigger] is_stream_of(kv, bv, n, p)
                    implies out@ == p by {
                    assert(ct@ == seal_of(kv, nonce@, ctr as int, true, last_pt(p)));
                    assert(out@ =~= p.take(ctr as int * pc) + last_pt(p));
                    assert(p.take(ctr as int * pc) + last_pt(p) =~= p);
                }
            }
            Ok(out)
        },
    }
}

/// Decrypts the plaintext range `[start, start + max_length)` out of a stored
/// stream, reading only the chunks the range touches. On every stream the
/// encrypt path can produce whose plaintext reaches past `start`, it returns
/// exactly that range, truncated at the plaintext's end.
#[verifier::rlimit(100)]
pub fn range_decrypt_blob(key: &[u8; 32], blob: &[u8], start: u64, max_length: u64) -> (r: Result<
    Vec<u8>,
    StreamError,
>)
    ensures
        forall|n: Seq<u8>, p: Seq<u8>|
            #[trigger] is_stream_of(key@, blob@, n, p) && start < p.len() ==> (r matches Ok(q)
                && q@ == p.subrange(
                start as int,
                vstd::math::min(start as int + max_length as int, p.len() as int),
            )),
{
    let ghost kv = key@;
    let ghost bv = blob@;
    if blob.len() < NONCE_SIZE + ENCRYPTION_OVERHEAD {
        proof {
            assert forall|n: Seq<u8>, p: Seq<u8>| !is_stream_of(kv, bv, n, p) by {
                if is_stream_of(kv, bv, n, p) {
                    lemma_cipher_from_len(kv, n, 0, p);
                }
            }
        }
        return Err(StreamError::Malformed);
    }
    if start >= MAX_PLAIN_SIZE {
        return Err(StreamError::Malformed);
    }
    let nonce = copy_range(blob, 0, NONCE_SIZE);
    proof {
        assert forall|n: Seq<u8>, p: Seq<u8>| #[trigger] is_stream_of(kv, bv, n, p) implies n
            == nonce@ by {
            lemma_cipher_from_len(kv, n, 0, p);
            assert(bv.subrange(0, NONCE_SIZE as int) =~= n);
        }
    }
    let cp = ChunkedPosition::new(start);
    let mut ctr: u64 = cp.active_chunk_counter;
    let mut pos_u: u64 = cp.beginning_of_active_chunk;
    let mut dropped: u64 = cp.offset_in_active_chunk;
    let mut remaining: u64 = max_length;
    let mut out: Vec<u8> = Vec::new();
    let ghost sc = start as int;
    let ghost ctr0 = sc / (PLAIN_CHUNK_SIZE as int);
    proof {
        assert(out@ =~= Seq::<u8>::empty());
        vstd::arithmetic::div_mod::lemma_fundamental_div_mod(sc, PLAIN_CHUNK_SIZE as int);
    }
    loop
        invariant
            kv == key@,
            bv == blob@,
            bv.len() >= NONCE_SIZE + ENCRYPTION_OVERHEAD,
            nonce@ == bv.subrange(0, NONCE_SIZE as int),
            nonce@.len() == NONCE_SIZE,
            sc == start as int,
            start < MAX_PLAIN_SIZE,
            ctr0 == sc / (PLAIN_CHUNK_SIZE as int),
            ctr0 <= ctr as int,
            ctr as int <= 0x1_0000_0000,
            pos_u as int == NONCE_SIZE + ctr as int * ENCRYPTED_CHUNK_SIZE,
            ctr as int == ctr0 ==> dropped as int == sc - ctr0 * PLAIN_CHUNK_SIZE
                && out@.len() == 0,
            ctr as int > ctr0 ==> dropped == 0,
            dropped < PLAIN_CHUNK_SIZE,
            remaining as int == max_length - out@.len(),
            out@.len() <= max_length,
            forall|n: Seq<u8>, p: Seq<u8>|
                #[trigger] is_stream_of(kv, bv, n, p) && start < p.len() ==> n == nonce@ && ctr
                    as int <= full_chunks(p.len() as int) && out@ == p.subrange(
                    sc,
                    vstd::math::max(
                        sc,
                        vstd::math::min(
                            vstd::math::min(sc + max_length as int, p.len() as int),
                            ctr as int * PLAIN_CHUNK_SIZE,
                        ),
                    ),
                ),
        decreases bv.len() as int + ENCRYPTED_CHUNK_SIZE - pos_u as int,
    {
        if remaining == 0 {
            proof {
                assert forall|n: Seq<u8>, p: Seq<u8>|
                    #[trigger] is_stream_of(kv, bv, n, p) && start < p.len() implies out@
                    == p.subrange(
                    sc,
                    vstd::math::min(sc + max_length as int, p.len() as int),
                ) by {
                    let emin = vstd::math::min(sc + max_length as int, p.len() as int);
                    let upper = vstd::math::max(
                        sc,
                        vstd::math::min(emin, ctr as int * PLAIN_CHUNK_SIZE),
                    );
                    assert(out@ == p.subrange(sc, upper));
                    assert(out@.len() == upper - sc);
                }
            }
            return Ok(out);
        }
        if pos_u >= blob.len() as u64 {
            proof {
                assert forall|n: Seq<u8>, p: Seq<u8>|
                    !(is_stream_of(kv, bv, n, p) && start < p.len()) by {
                    if is_stream_of(kv, bv, n, p) && start < p.len() {
                        lemma_cipher_from_len(kv, n, 0, p);
                        vstd::arithmetic::div_mod::lemma_fundamental_div_mod(
                            p.len() as int,
                            PLAIN_CHUNK_SIZE as int,
                        );
                        let l = p.len() as int;
                        let fc = full_chunks(l);
                        let s_rem = l % (PLAIN_CHUNK_SIZE as int);
                        assert(bv.len() == NONCE_SIZE + spec_cipher_len(l));
                        assert(pos_u < bv.len()) by (nonlinear_arith)
                            requires
                                ENCRYPTED_CHUNK_SIZE == PLAIN_CHUNK_SIZE + ENCRYPTION_OVERHEAD,
                                bv.len() == NONCE_SIZE + spec_cipher_len(l),
                                spec_cipher_len(l) == l + ENCRYPTION_OVERHEAD * (fc + 1),
                                l == PLAIN_CHUNK_SIZE as int * fc + s_rem,
                                0 <= s_rem < PLAIN_CHUNK_SIZE,
                                pos_u as int == NONCE_SIZE + ctr as int * ENCRYPTED_CHUNK_SIZE,
                                ctr as int <= fc,
                        ;
                    }
                }
            }
            return Err(StreamError::Malformed);
        }
        let rem_bytes = blob.len() as u64 - pos_u;
        proof {
            assert forall|n: Seq<u8>, p: Seq<u8>|
                #[trigger] is_stream_of(kv, bv, n, p) && start < p.len() implies {
                let l = p.len() as int;
                let fc = full_chunks(l);
                let s_rem = l % (PLAIN_CHUNK_SIZE as int);
                &&& rem_bytes as int == (fc - ctr as int) * ENCRYPTED_CHUNK_SIZE + s_rem
                    + ENCRYPTION_OVERHEAD
                &&& fc <= 0xFFFF_FFFF
            } by {
                lemma_cipher_from_len(kv, n, 0, p);
                vstd::arithmetic::div_mod::lemma_fundamental_div_mod(
                    p.len() as int,
                    PLAIN_CHUNK_SIZE as int,
                );
                let l = p.len() as int;
                let fc = full_chunks(l);
                let s_rem = l % (PLAIN_CHUNK_SIZE as int);
                assert(bv.len() == NONCE_SIZE + spec_cipher_len(l));
                assert(rem_bytes as int == (fc - ctr as int) * ENCRYPTED_CHUNK_SIZE + s_rem
                    + ENCRYPTION_OVERHEAD && fc <= 0xFFFF_FFFF) by (nonlinear_arith)
                    requires
                        ENCRYPTED_CHUNK_SIZE == PLAIN_CHUNK_SIZE + ENCRYPTION_OVERHEAD,
                        PLAIN_CHUNK_SIZE == 10000,
                        MAX_PLAIN_SIZE == 10000 * 0xFFFF_FFFF,
                        rem_bytes as int == bv.len() - pos_u as int,
                        bv.len() == NONCE_SIZE + spec_cipher_len(l),
                        spec_cipher_len(l) == l + ENCRYPTION_OVERHEAD * (fc + 1),
                        l == PLAIN_CHUNK_SIZE as int * fc + s_rem,
                        l <= MAX_PLAIN_SIZE,
                        0 <= s_rem < PLAIN_CHUNK_SIZE,
                        pos_u as int == NONCE_SIZE + ctr as int * ENCRYPTED_CHUNK_SIZE,
                ;
            }
        }
        if rem_bytes > ENCRYPTED_CHUNK_SIZE as u64 {
            if ctr >= 0xFFFF_FFFF {
                proof {
                    assert forall|n: Seq<u8>, p: Seq<u8>|
                        !(is_stream_of(kv, bv, n, p) && start < p.len()) by {
                        if is_stream_of(kv, bv, n, p) && start < p.len() {
                            let l = p.len() as int;
                            let fc = full_chunks(l);
                            let s_rem = l % (PLAIN_CHUNK_SIZE as int);
                            assert((ctr as int) < fc) by (nonlinear_arith)
                                requires
                                    ENCRYPTED_CHUNK_SIZE == PLAIN_CHUNK_SIZE
                                        + ENCRYPTION_OVERHEAD,
                                    rem_bytes as int == (fc - ctr as int) * ENCRYPTED_CHUNK_SIZE
                                        + s_rem + ENCRYPTION_OVERHEAD,
                                    rem_bytes > ENCRYPTED_CHUNK_SIZE,
                                    0 <= s_rem < PLAIN_CHUNK_SIZE,
                            ;
                        }
                    }
                }
                return Err(StreamError::Malformed);
            }
            proof {
                assert(pos_u + ENCRYPTED_CHUNK_SIZE as u64 <= blob.len() as u64);
                assert forall|n: Seq<u8>, p: Seq<u8>|
                    #[trigger] is_stream_of(kv, bv, n, p) && start < p.len() implies (ctr as int)
                    < full_chunks(p.len() as int) && bv.subrange(
                    pos_u as int,
                    pos_u as int + ENCRYPTED_CHUNK_SIZE,
                ) == seal_of(key@, nonce@, ctr as int, false, pt_slice(p, ctr as int)) by {
                    let l = p.len() as int;
                    let fc = full_chunks(l);
                    let s_rem = l % (PLAIN_CHUNK_SIZE as int);
                    assert((ctr as int) < fc) by (nonlinear_arith)
                        requires
                            ENCRYPTED_CHUNK_SIZE == PLAIN_CHUNK_SIZE + ENCRYPTION_OVERHEAD,
                            rem_bytes as int == (fc - ctr as int) * ENCRYPTED_CHUNK_SIZE + s_rem
                                + ENCRYPTION_OVERHEAD,
                            rem_bytes > ENCRYPTED_CHUNK_SIZE,
                            0 <= s_rem < PLAIN_CHUNK_SIZE,
                    ;
                    lemma_cipher_chunks(kv, n, 0, p);
                    assert(bv.skip(NONCE_SIZE as int) =~= cipher_from(kv, n, 0, p));
                    assert(enc_slice(cipher_from(kv, n, 0, p), ctr as int) == seal_of(
                        kv,
                        n,
                        ctr as int,
                        false,
                        pt_slice(p, ctr as int),
                    ));
                    assert(bv.subrange(pos_u as int, pos_u as int + ENCRYPTED_CHUNK_SIZE)
                        =~= enc_slice(bv.skip(NONCE_SIZE as int), ctr as int));
                }
            }
            let ct = copy_range(blob, pos_u as usize, pos_u as usize + ENCRYPTED_CHUNK_SIZE);
            match open_chunk(key, nonce.as_slice(), ctr as u32, false, ct.as_slice()) {
                None => {
                    proof {
                        assert forall|n: Seq<u8>, p: Seq<u8>|
                            !(is_stream_of(kv, bv, n, p) && start < p.len()) by {
                            if is_stream_of(kv, bv, n, p) && start < p.len() {
                                assert(ct@ == seal_of(
                                    key@,
                                    nonce@,
                                    ctr as int,
                                    false,
                                    pt_slice(p, ctr as int),
                                ));
                                assert(ct@ != seal_of(
                                    key@,
                                    nonce@,
                                    ctr as int,
                                    false,
                                    pt_slice(p, ctr as int),
                                ));
                            }
                        }
                    }
                    return Err(StreamError::Corrupt);
                },
                Some(pt) => {
                    let ghost pt_v = pt@;
                    proof {
                        assert(ct@ == seal_of(key@, nonce@, ctr as int, false, pt_v));
                        assert(pt_v.len() == PLAIN_CHUNK_SIZE);
                    }
                    let take = if remaining < PLAIN_CHUNK_SIZE as u64 - dropped {
                        remaining
                    } else {
                        PLAIN_CHUNK_SIZE as u64 - dropped
                    };
                    let mut piece = copy_range(
                        pt.as_slice(),
                        dropped as usize,
                        (dropped + take) as usize,
                    );
                    let ghost out_prev = out@;
                    out.append(&mut piece);
                    proof {
                        assert((ctr as int + 1) * PLAIN_CHUNK_SIZE == ctr as int
                            * PLAIN_CHUNK_SIZE + PLAIN_CHUNK_SIZE) by (nonlinear_arith);
                        assert((ctr as int + 1) * ENCRYPTED_CHUNK_SIZE == ctr as int
                            * ENCRYPTED_CHUNK_SIZE + ENCRYPTED_CHUNK_SIZE) by (nonlinear_arith);
                        assert((ctr0 + 1) * PLAIN_CHUNK_SIZE == ctr0 * PLAIN_CHUNK_SIZE
                            + PLAIN_CHUNK_SIZE) by (nonlinear_arith);
                        assert(out@ == out_prev + pt_v.subrange(
                            dropped as int,
                            dropped as int + take as int,
                        ));
                        assert forall|n: Seq<u8>, p: Seq<u8>|
                            #[trigger] is_stream_of(kv, bv, n, p) && start < p.len() implies out@
                            == p.subrange(
                            sc,
                            vstd::math::max(
                                sc,
                                vstd::math::min(
                                    vstd::math::min(sc + max_length as int, p.len() as int),
                                    (ctr as int + 1) * PLAIN_CHUNK_SIZE,
                                ),
                            ),
                        ) && (ctr as int + 1) <= full_chunks(p.len() as int) by {
                            let l = p.len() as int;
                            let fc = full_chunks(l);
                            let s_rem = l % (PLAIN_CHUNK_SIZE as int);
                            let emin = vstd::math::min(sc + max_length as int, l);
                            assert((ctr as int) < fc) by (nonlinear_arith)
                                requires
                                    ENCRYPTED_CHUNK_SIZE == PLAIN_CHUNK_SIZE
                                        + ENCRYPTION_OVERHEAD,
                                    rem_bytes as int == (fc - ctr as int) * ENCRYPTED_CHUNK_SIZE
                                        + s_rem + ENCRYPTION_OVERHEAD,
                                    rem_bytes > ENCRYPTED_CHUNK_SIZE,
                                    0 <= s_rem < PLAIN_CHUNK_SIZE,
                            ;
                            assert(pt_v == pt_slice(p, ctr as int));
                            vstd::arithmetic::div_mod::lemma_fundamental_div_mod(
                                l,
                                PLAIN_CHUNK_SIZE as int,
                            );
                            assert(fc * PLAIN_CHUNK_SIZE <= l && (ctr as int + 1)
                                * PLAIN_CHUNK_SIZE <= fc * PLAIN_CHUNK_SIZE) by (nonlinear_arith)
                                requires
                                    l == PLAIN_CHUNK_SIZE as int * fc + s_rem,
                                    s_rem >= 0,
                                    (ctr as int) < fc,
                            ;
                            let upper_old = vstd::math::max(
                                sc,
                                vstd::math::min(emin, ctr as int * PLAIN_CHUNK_SIZE),
                            );
                            assert(out_prev == p.subrange(sc, upper_old));
                            assert(upper_old == ctr as int * PLAIN_CHUNK_SIZE + dropped as int);
                            assert(out@ =~= p.subrange(
                                sc,
                                upper_old + take as int,
                            ));
                        }
                    }
                    dropped = 0;
                    remaining = remaining - take;
                    ctr = ctr + 1;
                    pos_u = pos_u + ENCRYPTED_CHUNK_SIZE as u64;
                },
            }
        } else if rem_bytes >= ENCRYPTION_OVERHEAD as u64 && rem_bytes < ENCRYPTED_CHUNK_SIZE
            as u64 {
            if ctr > 0xFFFF_FFFF {
                proof {
                    assert forall|n: Seq<u8>, p: Seq<u8>|
                        !(is_stream_of(kv, bv, n, p) && start < p.len()) by {
                        if is_stream_of(kv, bv, n, p) && start < p.len() {
                            assert(full_chunks(p.len() as int) <= 0xFFFF_FFFF);
                            assert(ctr as int <= full_chunks(p.len() as int));
                            assert(false);
                        }
                    }
                }
                return Err(StreamError::Malformed);
            }
            proof {
                assert forall|n: Seq<u8>, p: Seq<u8>|
                    #[trigger] is_stream_of(kv, bv, n, p) && start < p.len() implies ctr as int
                    == full_chunks(p.len() as int) && bv.subrange(pos_u as int, bv.len() as int)
                    == seal_of(key@, nonce@, ctr as int, true, last_pt(p)) by {
                    let l = p.len() as int;
                    let fc = full_chunks(l);
                    let s_rem = l % (PLAIN_CHUNK_SIZE as int);
                    assert(ctr as int == fc) by (nonlinear_arith)
                        requires
                            ENCRYPTED_CHUNK_SIZE == PLAIN_CHUNK_SIZE + ENCRYPTION_OVERHEAD,
                            rem_bytes as int == (fc - ctr as int) * ENCRYPTED_CHUNK_SIZE + s_rem
                                + ENCRYPTION_OVERHEAD,
                            rem_bytes < ENCRYPTED_CHUNK_SIZE,
                            ctr as int <= fc,
                            0 <= s_rem < PLAIN_CHUNK_SIZE,
                    ;
                    lemma_cipher_chunks(kv, n, 0, p);
                    assert(bv.skip(NONCE_SIZE as int) =~= cipher_from(kv, n, 0, p));
                    assert(bv.subrange(pos_u as int, bv.len() as int) =~= bv.skip(
                        NONCE_SIZE as int,
                    ).skip(fc * ENCRYPTED_CHUNK_SIZE));
                }
            }
            let ct = copy_range(blob, pos_u as usize, blob.len());
            match open_chunk(key, nonce.as_slice(), ctr as u32, true, ct.as_slice()) {
                None => {
                    proof {
                        assert forall|n: Seq<u8>, p: Seq<u8>|
                            !(is_stream_of(kv, bv, n, p) && start < p.len()) by {
                            if is_stream_of(kv, bv, n, p) && start < p.len() {
                                assert(ct@ == seal_of(key@, nonce@, ctr as int, true, last_pt(p)));
                                assert(ct@ != seal_of(key@, nonce@, ctr as int, true, last_pt(p)));
                            }
                        }
                    }
                    return Err(StreamError::Corrupt);
                },
                Some(pt) => {
                    let ghost pt_v = pt@;
                    proof {
                        assert(ct@ == seal_of(key@, nonce@, ctr as int, true, pt_v));
                        assert(pt_v.len() == rem_bytes - ENCRYPTION_OVERHEAD);
                    }
                    if dropped as usize >= pt.len() {
                        proof {
                            assert forall|n: Seq<u8>, p: Seq<u8>|
                                #[trigger] is_stream_of(kv, bv, n, p) && start < p.len() implies
                                out@ == p.subrange(
                                sc,
                                vstd::math::min(sc + max_length as int, p.len() as int),
                            ) by {
                                let l = p.len() as int;
                                let fc = full_chunks(l);
                                let s_rem = l % (PLAIN_CHUNK_SIZE as int);
                                let emin = vstd::math::min(sc + max_length as int, l);
                                vstd::arithmetic::div_mod::lemma_fundamental_div_mod(
                                    l,
                                    PLAIN_CHUNK_SIZE as int,
                                );
                                vstd::arithmetic::div_mod::lemma_fundamental_div_mod(
                                    sc,
                                    PLAIN_CHUNK_SIZE as int,
                                );
                                assert(pt_v == last_pt(p));
                                assert(last_pt(p) =~= p.skip(fc * PLAIN_CHUNK_SIZE));
                                assert(pt_v.len() == s_rem);
                                assert(ctr as int > ctr0 && dropped == 0 && s_rem == 0)
                                    by (nonlinear_arith)
                                    requires
                                        l == PLAIN_CHUNK_SIZE as int * fc + s_rem,
                                        0 <= s_rem < PLAIN_CHUNK_SIZE,
                                        sc < l,
                                        ctr as int == fc,
                                        ctr0 <= ctr as int,
                                        sc == PLAIN_CHUNK_SIZE as int * ctr0 + sc % (
                                        PLAIN_CHUNK_SIZE as int),
                                        0 <= sc % (PLAIN_CHUNK_SIZE as int) < PLAIN_CHUNK_SIZE,
                                        ctr as int == ctr0 ==> dropped as int == sc - ctr0
                                            * PLAIN_CHUNK_SIZE,
                                        ctr as int > ctr0 ==> dropped == 0,
                                        dropped >= s_rem,
                                ;
                                assert(l == fc * PLAIN_CHUNK_SIZE) by (nonlinear_arith)
                                    requires
                                        l == PLAIN_CHUNK_SIZE as int * fc + s_rem,
                                        s_rem == 0,
                                ;
                                assert(out@ == p.subrange(
                                    sc,
                                    vstd::math::max(
                                        sc,
                                        vstd::math::min(emin, ctr as int * PLAIN_CHUNK_SIZE),
                                    ),
                                ));
                            }
                        }
                        return Ok(out);
                    }
                    let ptl = pt.len() as u64;
                    let take = if remaining < ptl - dropped {
                        remaining
                    } else {
                        ptl - dropped
                    };
                    let mut piece = copy_range(
                        pt.as_slice(),
                        dropped as usize,
                        (dropped + take) as usize,
                    );
                    let ghost out_prev = out@;
                    out.append(&mut piece);
                    proof {
                        assert(out@ == out_prev + pt_v.subrange(
                            dropped as int,
                            dropped as int + take as int,
                        ));
                        assert forall|n: Seq<u8>, p: Seq<u8>|
                            #[trigger] is_stream_of(kv, bv, n, p) && start < p.len() implies out@
                            == p.subrange(
                            sc,
                            vstd::math::min(sc + max_length as int, p.len() as int),
                        ) by {
                            let l = p.len() as int;
                            let fc = full_chunks(l);
                            let s_rem = l % (PLAIN_CHUNK_SIZE as int);
                            let emin = vstd::math::min(sc + max_length as int, l);
                            vstd::arithmetic::div_mod::lemma_fundamental_div_mod(
                                l,
                                PLAIN_CHUNK_SIZE as int,
                            );
                            assert(pt_v == last_pt(p));
                            assert(last_pt(p) =~= p.skip(fc * PLAIN_CHUNK_SIZE));
                            assert(pt_v.len() == s_rem);
                            let upper_old = vstd::math::max(
                                sc,
                                vstd::math::min(emin, ctr as int * PLAIN_CHUNK_SIZE),
                            );
                            assert(out_prev == p.subrange(sc, upper_old));
                            assert(upper_old == ctr as int * PLAIN_CHUNK_SIZE + dropped as int);
                            assert(out@ =~= p.subrange(sc, upper_old + take as int));
                            assert(upper_old + take as int == emin);
                        }
                    }
                    return Ok(out);
                },
            }
        } else {
            proof {
                assert forall|n: Seq<u8>, p: Seq<u8>|
                    !(is_stream_of(kv, bv, n, p) && start < p.len()) by {
                    if is_stream_of(kv, bv, n, p) && start < p.len() {
                        let l = p.len() as int;
                        let fc = full_chunks(l);
                        let s_rem = l % (PLAIN_CHUNK_SIZE as int);
                        assert(false) by (nonlinear_arith)
                            requires
                                ENCRYPTED_CHUNK_SIZE == PLAIN_CHUNK_SIZE + ENCRYPTION_OVERHEAD,
                                rem_bytes as int == (fc - ctr as int) * ENCRYPTED_CHUNK_SIZE
                                    + s_rem + ENCRYPTION_OVERHEAD,
                                rem_bytes < ENCRYPTION_OVERHEAD || rem_bytes
                                    >= ENCRYPTED_CHUNK_SIZE,
                                rem_bytes <= ENCRYPTED_CHUNK_SIZE,
                                ctr as int <= fc,
                                0 <= s_rem < PLAIN_CHUNK_SIZE,
                        ;
                    }
                }
            }
            return Err(StreamError::Malformed);
        }
    }
}

/// Sizes round-trip: storing `l` plaintext bytes yields a stream whose
/// computed plaintext size is `l` again, and plaintext offset zero lives just
/// past the nonce and the first tag.
pub proof fn lemma_size_round_trip(l: int)
    requires
        l >= 0,
    ensures
        spec_decrypted_size(spec_ciphertext_size(l)) == l,
        spec_encrypted_offset(0) == NONCE_SIZE + ENCRYPTION_OVERHEAD,
{
    let p = PLAIN_CHUNK_SIZE as int;
    let e = ENCRYPTED_CHUNK_SIZE as int;
    vstd::arithmetic::div_mod::lemma_fundamental_div_mod(l, p);
    let q = l / p;
    let s = l % p;
    let cs = spec_ciphertext_size(l);
    let m = cs - NONCE_SIZE;
    assert(m == e * q + (s + ENCRYPTION_OVERHEAD)) by (nonlinear_arith)
        requires
            l == p * q + s,
            m == l + ENCRYPTION_OVERHEAD * (q + 1),
            p == PLAIN_CHUNK_SIZE as int,
            e == ENCRYPTED_CHUNK_SIZE as int,
    ;
    vstd::arithmetic::div_mod::lemma_fundamental_div_mod_converse(
        m,
        e,
        q,
        s + ENCRYPTION_OVERHEAD,
    );
    lemma_ceil_div(m, e);
}

} // verus!
