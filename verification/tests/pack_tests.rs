use b2_backup::digest::block_digest;
use chacha20poly1305::{AeadInPlace, KeyInit, XChaCha20Poly1305};
use b2_backup::pack::{frame_blob, open_frame, pack, seal_frame, split_blob, unpack, PackError};

fn key(fill: u8) -> [u8; 32] {
    [fill; 32]
}

#[test]
fn unpack_gives_back_what_was_packed() {
    let data = b"the quick brown fox jumps over the lazy dog".to_vec();
    let blob = pack(&key(1), 17, &data).unwrap();
    assert_eq!(unpack(&key(1), &blob), Ok(data));
}

#[test]
fn empty_data_round_trips() {
    let blob = pack(&key(9), 3, &[]).unwrap();
    assert!(blob.len() >= 40);
    assert_eq!(unpack(&key(9), &blob), Ok(Vec::new()));
}

#[test]
fn large_data_round_trips_and_shrinks() {
    let data = vec![42u8; 1 << 20];
    let blob = pack(&key(2), 17, &data).unwrap();
    assert!(blob.len() < data.len());
    assert_eq!(unpack(&key(2), &blob), Ok(data));
}

#[test]
fn blob_is_not_the_plain_data() {
    let data = vec![0u8; 4096];
    let blob = pack(&key(3), 0, &data).unwrap();
    assert_ne!(blob, data);
    assert_ne!(&blob[..blob.len() - 40], &data[..]);
}

#[test]
fn every_pack_takes_a_fresh_nonce() {
    let data = b"same data".to_vec();
    let a = pack(&key(4), 17, &data).unwrap();
    let b = pack(&key(4), 17, &data).unwrap();
    assert_eq!(a.len(), b.len());
    assert_ne!(a[a.len() - 40..a.len() - 16], b[b.len() - 40..b.len() - 16]);
    assert_ne!(a, b);
}

#[test]
fn changing_any_byte_of_a_blob_makes_unpack_fail() {
    let data = b"integrity over the whole blob".to_vec();
    let blob = pack(&key(5), 17, &data).unwrap();
    for i in 0..blob.len() {
        let mut bad = blob.clone();
        bad[i] ^= 0x01;
        assert_eq!(unpack(&key(5), &bad), Err(PackError::Decrypt));
    }
}

#[test]
fn another_key_does_not_open_a_blob() {
    let blob = pack(&key(6), 17, b"secret").unwrap();
    assert_eq!(unpack(&key(7), &blob), Err(PackError::Decrypt));
}

#[test]
fn a_blob_under_forty_bytes_is_too_short() {
    assert_eq!(unpack(&key(1), &[]), Err(PackError::TooShort));
    assert_eq!(unpack(&key(1), &[0u8; 39]), Err(PackError::TooShort));
}

#[test]
fn forty_bytes_of_zeros_do_not_decrypt() {
    assert_eq!(unpack(&key(1), &[0u8; 40]), Err(PackError::Decrypt));
}

#[test]
fn split_blob_takes_nonce_and_tag_from_the_end() {
    let blob: Vec<u8> = (0..50u8).collect();
    let (sealed, nonce, tag) = split_blob(&blob).unwrap();
    assert_eq!(sealed, (0..10u8).collect::<Vec<u8>>());
    assert_eq!(nonce, (10..34u8).collect::<Vec<u8>>());
    assert_eq!(tag, (34..50u8).collect::<Vec<u8>>());
    assert_eq!(frame_blob(sealed, &nonce, &tag), blob);
}

#[test]
fn split_blob_refuses_a_short_blob() {
    assert_eq!(split_blob(&[1u8; 39]), Err(PackError::TooShort));
    assert!(split_blob(&[1u8; 40]).is_ok());
}

#[test]
fn digest_of_nothing_is_the_known_one() {
    let hex: String = block_digest(&[]).iter().map(|b| format!("{:02x}", b)).collect();
    assert_eq!(hex, "af1349b9f5f9a1a6a0404dea36dcc9499bcb25c9adc112b7cc9a93cae41f3262");
}

#[test]
fn digests_tell_data_apart() {
    assert_eq!(block_digest(b"abc").len(), 32);
    assert_eq!(block_digest(b"abc"), block_digest(b"abc"));
    assert_ne!(block_digest(b"abc"), block_digest(b"abd"));
}

#[test]
fn sealed_bytes_that_are_no_frame_do_not_decompress() {
    let cipher = XChaCha20Poly1305::new(chacha20poly1305::Key::from_slice(&key(8)));
    let nonce = [3u8; 24];
    let mut body = b"this is not a compressed frame".to_vec();
    let tag = cipher
        .encrypt_in_place_detached(chacha20poly1305::XNonce::from_slice(&nonce), &[], &mut body)
        .unwrap();
    let blob = frame_blob(body, &nonce, &tag);
    assert_eq!(unpack(&key(8), &blob), Err(PackError::Decompress));
}

#[test]
fn the_sealed_bytes_are_not_the_compressed_frame() {
    let data = vec![5u8; 10_000];
    let frame = zstd::stream::encode_all(&data[..], 3).unwrap();
    let blob = pack(&key(8), 3, &data).unwrap();
    assert_eq!(blob.len(), frame.len() + 40);
    assert_ne!(&blob[..frame.len()], &frame[..]);
}

#[test]
fn a_sealed_frame_is_opened_again() {
    let frame = zstd::stream::encode_all(&b"some data, some data, some data"[..], 3).unwrap();
    let nonce = [9u8; 24];
    let blob = seal_frame(&key(4), &nonce, frame.clone()).unwrap();
    assert_eq!(blob.len(), frame.len() + 40);
    assert_eq!(&blob[frame.len()..frame.len() + 24], &nonce[..]);
    assert_ne!(&blob[..frame.len()], &frame[..]);
    assert_eq!(open_frame(&key(4), &blob), Ok(frame));
    assert_eq!(unpack(&key(4), &blob), Ok(b"some data, some data, some data".to_vec()));
    assert_eq!(open_frame(&key(5), &blob), Err(PackError::Decrypt));
    assert_eq!(open_frame(&key(4), &blob[..39]), Err(PackError::TooShort));
}

#[test]
fn sealing_is_the_cipher_with_no_associated_data() {
    let cipher = XChaCha20Poly1305::new(chacha20poly1305::Key::from_slice(&key(6)));
    let nonce = [1u8; 24];
    let mut body = b"sealed by hand".to_vec();
    let tag = cipher
        .encrypt_in_place_detached(chacha20poly1305::XNonce::from_slice(&nonce), &[], &mut body)
        .unwrap();
    let blob = seal_frame(&key(6), &nonce, b"sealed by hand".to_vec()).unwrap();
    assert_eq!(blob, frame_blob(body, &nonce, &tag));
    assert_eq!(open_frame(&key(6), &blob), Ok(b"sealed by hand".to_vec()));
}
