use chunkstream::aead::{AeadParams, Algorithm, StreamKey};
use chunkstream::decryptor::{StreamingDecryptor, StreamingDecryptorSetup};
use chunkstream::encryptor::{StreamingEncryptor, StreamingEncryptorSetup};
use chunkstream::error::{StreamError, WriteFailure};
use chunkstream::nonce::derive_nonce;

const TAG: usize = 16;

fn key(alg: Algorithm) -> StreamKey {
    let len = match alg {
        Algorithm::Aes128Gcm => 16,
        _ => 32,
    };
    StreamKey { algorithm: alg, bytes: (0..len).map(|i| (i * 7 + 3) as u8).collect() }
}

fn base_nonce(alg: Algorithm) -> Vec<u8> {
    let len = match alg {
        Algorithm::XChaCha20Poly1305 => 24,
        _ => 12,
    };
    (0..len).map(|i| (i * 13 + 1) as u8).collect()
}

fn encryptor(alg: Algorithm, chunk_size: u32, aad: Option<Vec<u8>>) -> StreamingEncryptor {
    let params = AeadParams { algorithm: alg, chunk_size, base_nonce: base_nonce(alg) };
    StreamingEncryptorSetup::new(params, aad).start(key(alg)).unwrap()
}

fn decryptor(alg: Algorithm, chunk_size: usize, aad: Option<Vec<u8>>) -> StreamingDecryptor {
    StreamingDecryptorSetup::new(alg, base_nonce(alg), chunk_size, aad).start(key(alg)).unwrap()
}

fn encrypt_all(alg: Algorithm, chunk_size: u32, data: &[u8]) -> Vec<u8> {
    let mut enc = encryptor(alg, chunk_size, None);
    let mut out = enc.write(data).unwrap();
    out.extend(enc.finish().unwrap());
    out
}

/// One pull of at most `max` bytes, reading a frame from `src` where one is needed.
fn pull(dec: &mut StreamingDecryptor, src: &mut &[u8], max: usize) -> Result<Vec<u8>, StreamError> {
    if dec.needs_frame() {
        let n = std::cmp::min(dec.encrypted_chunk_size(), src.len());
        let frame = &src[..n];
        *src = &src[n..];
        dec.accept_frame(frame)?;
    }
    Ok(dec.take(max))
}

fn decrypt_all(
    alg: Algorithm,
    chunk_size: usize,
    stream: &[u8],
    pull_size: usize,
) -> Result<Vec<u8>, StreamError> {
    let mut dec = decryptor(alg, chunk_size, None);
    let mut src = stream;
    let mut out = Vec::new();
    loop {
        let got = pull(&mut dec, &mut src, pull_size)?;
        if got.is_empty() {
            return Ok(out);
        }
        out.extend(got);
    }
}

#[test]
fn round_trip_all_lengths() {
    for alg in [
        Algorithm::Aes128Gcm,
        Algorithm::Aes256Gcm,
        Algorithm::ChaCha20Poly1305,
        Algorithm::XChaCha20Poly1305,
    ] {
        for len in [0usize, 1, 3, 4, 5, 8, 10, 64, 67] {
            let data: Vec<u8> = (0..len).map(|i| (i * 31 % 251) as u8).collect();
            let stream = encrypt_all(alg, 4, &data);
            assert_eq!(decrypt_all(alg, 4, &stream, 3).unwrap(), data);
            assert_eq!(decrypt_all(alg, 4, &stream, 100).unwrap(), data);
        }
    }
}

#[test]
fn round_trip_with_aad() {
    let alg = Algorithm::Aes256Gcm;
    let aad = Some(b"header".to_vec());
    let data = b"associated data is bound to every chunk".to_vec();
    let mut enc = encryptor(alg, 8, aad.clone());
    let mut stream = enc.write(&data).unwrap();
    stream.extend(enc.finish().unwrap());

    let mut dec = decryptor(alg, 8, aad);
    let mut src = &stream[..];
    let mut out = Vec::new();
    loop {
        let got = pull(&mut dec, &mut src, 5).unwrap();
        if got.is_empty() {
            break;
        }
        out.extend(got);
    }
    assert_eq!(out, data);

    let mut wrong = decryptor(alg, 8, Some(b"other".to_vec()));
    let mut src = &stream[..];
    assert_eq!(pull(&mut wrong, &mut src, 5), Err(StreamError::Authentication { index: 0 }));
}

#[test]
fn ten_bytes_in_chunks_of_four() {
    let alg = Algorithm::Aes256Gcm;
    let data: Vec<u8> = (1..=10).collect();
    let mut enc = encryptor(alg, 4, None);
    let frames = enc.write(&data).unwrap();
    assert_eq!(frames.len(), 2 * (4 + TAG));
    assert_eq!(enc.chunk_index(), 2);
    assert_eq!(enc.buffered_len(), 2);
    let last = enc.finish().unwrap();
    assert_eq!(last.len(), 2 + TAG);

    let mut stream = frames;
    stream.extend(last);
    let mut dec = decryptor(alg, 4, None);
    let mut src = &stream[..];
    let mut pulls = Vec::new();
    loop {
        let got = pull(&mut dec, &mut src, 3).unwrap();
        if got.is_empty() {
            break;
        }
        pulls.push(got);
    }
    assert!(pulls.len() > 1);
    assert!(pulls.iter().all(|p| p.len() <= 3));
    assert_eq!(pulls.concat(), data);
    assert!(dec.is_done());
    assert_eq!(pull(&mut dec, &mut src, 3).unwrap(), Vec::<u8>::new());
}

#[test]
fn frames_are_not_plaintext() {
    let alg = Algorithm::ChaCha20Poly1305;
    let data = vec![0u8; 4];
    let mut enc = encryptor(alg, 4, None);
    let frame = enc.write(&data).unwrap();
    assert_eq!(frame.len(), 4 + TAG);
    assert_ne!(&frame[..4], &data[..]);
}

#[test]
fn nonces_are_distinct() {
    let base = vec![0x5au8; 12];
    let nonces: Vec<Vec<u8>> = (0..300u64).map(|i| derive_nonce(&base, i)).collect();
    for i in 0..nonces.len() {
        assert_eq!(nonces[i].len(), 12);
        for j in (i + 1)..nonces.len() {
            assert_ne!(nonces[i], nonces[j]);
        }
    }
    let far = [0u64, 1, 255, 256, 1 << 40, u64::MAX - 1];
    for (a, x) in far.iter().enumerate() {
        for y in far.iter().skip(a + 1) {
            assert_ne!(derive_nonce(&base, *x), derive_nonce(&base, *y));
        }
    }
}

#[test]
fn nonce_layout_is_big_endian_xor() {
    let base = vec![0u8; 12];
    assert_eq!(derive_nonce(&base, 0), base);
    assert_eq!(derive_nonce(&base, 0x0102), vec![0, 0, 0, 0, 0, 0, 0, 0, 0, 0, 1, 2]);
    let ones = vec![0xffu8; 12];
    assert_eq!(
        derive_nonce(&ones, 0x0100_0000_0000_0001),
        vec![0xff, 0xff, 0xff, 0xff, 0xfe, 0xff, 0xff, 0xff, 0xff, 0xff, 0xff, 0xfe]
    );
    assert_eq!(derive_nonce(&[0xaa, 0xbb], 0x0304), vec![0xa9, 0xbf]);
}

#[test]
fn flipped_bit_fails_at_its_chunk() {
    let alg = Algorithm::Aes256Gcm;
    let data: Vec<u8> = (0..10).collect();
    let stream = encrypt_all(alg, 4, &data);
    let frame = 4 + TAG;
    for (byte, index) in [(0usize, 0u64), (frame - 1, 0), (frame + 2, 1), (2 * frame + 3, 2)] {
        for bit in [0u8, 7] {
            let mut bad = stream.clone();
            bad[byte] ^= 1 << bit;
            let mut dec = decryptor(alg, 4, None);
            let mut src = &bad[..];
            let mut out = Vec::new();
            let err = loop {
                match pull(&mut dec, &mut src, 100) {
                    Ok(got) => {
                        assert!(!got.is_empty());
                        out.extend(got);
                    }
                    Err(e) => break e,
                }
            };
            assert_eq!(err, StreamError::Authentication { index });
            assert_eq!(out.len(), 4 * index as usize);
            assert_eq!(pull(&mut dec, &mut src, 100).unwrap(), Vec::<u8>::new());
        }
    }
}

#[test]
fn truncated_last_frame_is_an_error() {
    let alg = Algorithm::Aes256Gcm;
    let data: Vec<u8> = (0..10).collect();
    let stream = encrypt_all(alg, 4, &data);
    let full = stream.len();
    let cut = &stream[..full - (2 + TAG - 1)];
    assert_eq!(decrypt_all(alg, 4, cut, 100), Err(StreamError::Truncated { index: 2 }));
    let cut = &stream[..full - 1];
    assert_eq!(decrypt_all(alg, 4, cut, 100), Err(StreamError::Authentication { index: 2 }));
    let cut = &stream[..2 * (4 + TAG) - 3];
    assert_eq!(decrypt_all(alg, 4, cut, 100), Err(StreamError::Authentication { index: 1 }));
}

#[test]
fn finish_keeps_the_tail_and_drop_loses_it() {
    let alg = Algorithm::Aes256Gcm;
    let mut enc = encryptor(alg, 8, None);
    assert_eq!(enc.write(b"abc").unwrap(), Vec::<u8>::new());
    assert_eq!(enc.buffered_len(), 3);
    drop(enc);

    let mut enc = encryptor(alg, 8, None);
    assert_eq!(enc.write(b"abc").unwrap(), Vec::<u8>::new());
    let tail = enc.finish().unwrap();
    assert_eq!(tail.len(), 3 + TAG);
    assert_eq!(decrypt_all(alg, 8, &tail, 8).unwrap(), b"abc".to_vec());

    let enc = encryptor(alg, 8, None);
    assert_eq!(enc.finish().unwrap(), Vec::<u8>::new());
}

#[test]
fn small_writes_give_the_same_frames() {
    let alg = Algorithm::XChaCha20Poly1305;
    let data: Vec<u8> = (0..45).map(|i| (i * 3) as u8).collect();
    let whole = encrypt_all(alg, 7, &data);

    let mut enc = encryptor(alg, 7, None);
    let mut pieces = Vec::new();
    for b in &data {
        pieces.extend(enc.write(std::slice::from_ref(b)).unwrap());
    }
    pieces.extend(enc.finish().unwrap());
    assert_eq!(pieces, whole);

    let mut enc = encryptor(alg, 7, None);
    let mut mixed = Vec::new();
    for part in data.chunks(5) {
        mixed.extend(enc.write(part).unwrap());
    }
    mixed.extend(enc.finish().unwrap());
    assert_eq!(mixed, whole);
}

#[test]
fn key_of_another_cipher_is_refused() {
    let params = AeadParams {
        algorithm: Algorithm::Aes256Gcm,
        chunk_size: 4,
        base_nonce: base_nonce(Algorithm::Aes256Gcm),
    };
    let r = StreamingEncryptorSetup::new(params, None).start(key(Algorithm::ChaCha20Poly1305));
    assert!(matches!(r, Err(StreamError::InvalidKeyType)));
    let r = StreamingDecryptorSetup::new(Algorithm::Aes256Gcm, base_nonce(Algorithm::Aes256Gcm), 4, None)
        .start(key(Algorithm::Aes128Gcm));
    assert!(matches!(r, Err(StreamError::InvalidKeyType)));
}

#[test]
fn cipher_refusal_is_an_encryption_error() {
    let params = AeadParams { algorithm: Algorithm::Aes256Gcm, chunk_size: 4, base_nonce: vec![1; 10] };
    let mut enc = StreamingEncryptorSetup::new(params, None).start(key(Algorithm::Aes256Gcm)).unwrap();
    assert_eq!(
        enc.write(b"abcdef"),
        Err(WriteFailure { sealed: Vec::new(), consumed: 0, error: StreamError::Encryption })
    );
    assert_eq!(enc.buffered_len(), 0);
    assert_eq!(enc.chunk_index(), 0);
    assert_eq!(enc.write(b"ab").unwrap(), Vec::<u8>::new());
    assert_eq!(enc.finish(), Err(StreamError::Encryption));
}

#[test]
fn empty_source_ends_cleanly() {
    let mut dec = decryptor(Algorithm::Aes128Gcm, 16, None);
    assert_eq!(dec.encrypted_chunk_size(), 16 + TAG);
    let mut src: &[u8] = &[];
    assert_eq!(pull(&mut dec, &mut src, 10).unwrap(), Vec::<u8>::new());
    assert!(dec.is_done());
    assert!(!dec.needs_frame());
}

#[test]
fn read_to_end_round_trip() {
    for len in [0usize, 2, 4, 9, 12, 13] {
        let data: Vec<u8> = (0..len).map(|i| (200 - i) as u8).collect();
        let stream = encrypt_all(Algorithm::Aes128Gcm, 4, &data);
        let mut dec = decryptor(Algorithm::Aes128Gcm, 4, None);
        assert_eq!(dec.read_to_end(&stream).unwrap(), data);
        assert!(dec.is_done());
    }
}

#[test]
fn read_to_end_reports_tampering_and_truncation() {
    let alg = Algorithm::ChaCha20Poly1305;
    let data: Vec<u8> = (0..10).collect();
    let stream = encrypt_all(alg, 4, &data);
    let mut bad = stream.clone();
    bad[4 + TAG + 1] ^= 0x10;
    let mut dec = decryptor(alg, 4, None);
    assert_eq!(dec.read_to_end(&bad), Err(StreamError::Authentication { index: 1 }));
    assert!(dec.is_done());
    assert_eq!(dec.take(100), Vec::<u8>::new());

    let mut dec = decryptor(alg, 4, None);
    let cut = &stream[..2 * (4 + TAG) + 5];
    assert_eq!(dec.read_to_end(cut), Err(StreamError::Truncated { index: 2 }));
}

#[test]
fn wrong_key_fails_authentication_at_first_chunk() {
    let alg = Algorithm::Aes256Gcm;
    let data: Vec<u8> = (0..9).collect();
    let stream = encrypt_all(alg, 4, &data);
    let other = StreamKey { algorithm: alg, bytes: vec![9u8; 32] };
    let mut dec = StreamingDecryptorSetup::new(alg, base_nonce(alg), 4, None).start(other).unwrap();
    assert_eq!(dec.read_to_end(&stream), Err(StreamError::Authentication { index: 0 }));
    assert!(dec.is_done());
    assert!(!dec.needs_frame());
}
