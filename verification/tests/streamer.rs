//! Round trips of the chunked authenticated-encryption streamer: full
//! decryption, range decryption, and the size arithmetic.

use vestibule::davs::encrypted_streamer::ChunkedPosition;
use vestibule::davs::encrypted_streamer::ENCRYPTED_CHUNK_SIZE;
use vestibule::davs::encrypted_streamer::ENCRYPTION_OVERHEAD;
use vestibule::davs::encrypted_streamer::NONCE_SIZE;
use vestibule::davs::encrypted_streamer::PLAIN_CHUNK_SIZE;
use vestibule::davs::encrypted_streamer::decrypt_blob;
use vestibule::davs::encrypted_streamer::decrypted_size;
use vestibule::davs::encrypted_streamer::encrypt_blob;
use vestibule::davs::encrypted_streamer::encrypted_offset;
use vestibule::davs::encrypted_streamer::range_decrypt_blob;

fn sample(len: usize) -> Vec<u8> {
    (0..len).map(|i| ((i * 7 + i / 251) % 256) as u8).collect()
}

const KEY: [u8; 32] = [7u8; 32];

#[test]
fn encrypt_then_decrypt_returns_the_plaintext() {
    for len in [0usize, 1, 9999, 10000, 10001, 25000, 30000] {
        let plain = sample(len);
        let blob = encrypt_blob(&KEY, plain.as_slice());
        let expected =
            NONCE_SIZE + len + ENCRYPTION_OVERHEAD * (len / PLAIN_CHUNK_SIZE + 1);
        assert_eq!(blob.len(), expected);
        let back = decrypt_blob(&KEY, blob.as_slice()).unwrap();
        assert_eq!(back, plain);
    }
}

#[test]
fn stored_bytes_differ_from_the_plaintext() {
    let plain = sample(5000);
    let blob = encrypt_blob(&KEY, plain.as_slice());
    assert_ne!(&blob[NONCE_SIZE..NONCE_SIZE + 5000], plain.as_slice());
}

#[test]
fn wrong_key_fails_decryption() {
    let plain = sample(100);
    let blob = encrypt_blob(&KEY, plain.as_slice());
    let other = [8u8; 32];
    assert!(decrypt_blob(&other, blob.as_slice()).is_err());
}

#[test]
fn corrupt_and_truncated_streams_are_rejected() {
    let plain = sample(20500);
    let mut blob = encrypt_blob(&KEY, plain.as_slice());
    // a flipped ciphertext byte fails authentication
    blob[NONCE_SIZE + 100] ^= 1;
    assert!(decrypt_blob(&KEY, blob.as_slice()).is_err());
    blob[NONCE_SIZE + 100] ^= 1;
    // a stream cut at a chunk boundary is rejected, not silently truncated
    let cut = &blob[..NONCE_SIZE + ENCRYPTED_CHUNK_SIZE];
    assert!(decrypt_blob(&KEY, cut).is_err());
    // shorter than a nonce and one tag
    assert!(decrypt_blob(&KEY, &blob[..10]).is_err());
}

#[test]
fn get_correct_range() {
    // mirrors a served range: bytes 20000-20050 of a larger body
    let plain = sample(30000);
    let blob = encrypt_blob(&KEY, plain.as_slice());
    let part = range_decrypt_blob(&KEY, blob.as_slice(), 20000, 51).unwrap();
    assert_eq!(part.as_slice(), &plain[20000..=20050]);
}

#[test]
fn ranges_cross_chunk_boundaries_and_truncate_at_the_end() {
    let plain = sample(25000);
    let blob = encrypt_blob(&KEY, plain.as_slice());
    let part = range_decrypt_blob(&KEY, blob.as_slice(), 9990, 30).unwrap();
    assert_eq!(part.as_slice(), &plain[9990..10020]);
    // a range past the end is truncated at the plaintext's end
    let tail = range_decrypt_blob(&KEY, blob.as_slice(), 24000, 5000).unwrap();
    assert_eq!(tail.as_slice(), &plain[24000..]);
    // a range within the first chunk
    let head = range_decrypt_blob(&KEY, blob.as_slice(), 0, 10).unwrap();
    assert_eq!(head.as_slice(), &plain[0..10]);
}

#[test]
fn size_round_trip() {
    for len in [0u64, 1, 9999, 10000, 10001, 123456] {
        let chunks = len / PLAIN_CHUNK_SIZE as u64 + 1;
        let enc = len + ENCRYPTION_OVERHEAD as u64 * chunks + NONCE_SIZE as u64;
        assert_eq!(decrypted_size(enc), len);
    }
    assert_eq!(encrypted_offset(0), (NONCE_SIZE + ENCRYPTION_OVERHEAD) as u64);
    assert_eq!(encrypted_offset(10000), (10000 + 2 * ENCRYPTION_OVERHEAD + NONCE_SIZE) as u64);
}

#[test]
fn chunked_position_locates_the_chunk() {
    let p = ChunkedPosition::new(20050);
    assert_eq!(p.active_chunk_counter, 2);
    assert_eq!(
        p.beginning_of_active_chunk,
        (2 * ENCRYPTED_CHUNK_SIZE + NONCE_SIZE) as u64
    );
    assert_eq!(p.offset_in_active_chunk, 50);
    let q = ChunkedPosition::new(0);
    assert_eq!(q.active_chunk_counter, 0);
    assert_eq!(q.beginning_of_active_chunk, NONCE_SIZE as u64);
    assert_eq!(q.offset_in_active_chunk, 0);
}
