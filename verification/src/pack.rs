//! The envelope of every blob that leaves the process: compressed, then sealed with an
//! authenticated cipher under a fresh random nonce.
//!
//! A blob is the sealed bytes, followed by the 24 bytes of the nonce and the 16 bytes
//! of the authentication tag. Neither length is stored in the blob.

use chacha20poly1305::{AeadInPlace, KeyInit, XChaCha20Poly1305};
use crate::bytes::{append_bytes, copy_bytes};
use ring::rand::SecureRandom;
use vstd::prelude::*;
use vstd::slice::slice_subrange;

verus! {

/// Bytes of a key.
pub const KEY_LEN: usize = 32;

/// Bytes of a nonce.
pub const NONCE_LEN: usize = 24;

/// Bytes of an authentication tag.
pub const TAG_LEN: usize = 16;

/// A 256-bit key of the cipher.
pub type Key = [u8; 32];

/// Why a blob could not be made or opened.
#[derive(Debug, Clone, Copy, PartialEq, Eq, Structural)]
pub enum PackError {
    /// The compressor reported an error.
    Compress,
    /// The system's random number generator gave no nonce.
    Nonce,
    /// The compressed data is too long for the cipher.
    Encrypt,
    /// The blob is shorter than a nonce and a tag.
    TooShort,
    /// The blob does not carry the tag that the key gives for it.
    Decrypt,
    /// The decompressor reported an error.
    Decompress,
}

/// The zstd frame that the compressor makes of `data` at `level`.
pub uninterp spec fn zstd_frame(data: Seq<u8>, level: int) -> Seq<u8>;

/// The data that the decompressor reads out of `frame`, if it accepts it.
pub uninterp spec fn zstd_decoded(frame: Seq<u8>) -> Option<Seq<u8>>;

/// The sealed bytes and the tag that XChaCha20-Poly1305 makes of `text` under `key` and
/// `nonce`, without associated data.
pub uninterp spec fn aead_sealed(key: Seq<u8>, nonce: Seq<u8>, text: Seq<u8>) -> (Seq<u8>, Seq<u8>);

/// The text that XChaCha20-Poly1305 gives back for `sealed` under `key`, `nonce` and
/// `tag`, or `None` where it refuses them, as it does where the tag does not fit.
pub uninterp spec fn aead_opened(
    key: Seq<u8>,
    nonce: Seq<u8>,
    sealed: Seq<u8>,
    tag: Seq<u8>,
) -> Option<Seq<u8>>;

/// Calls `zstd::stream::encode_all` on `data`. The result is the frame of `data` at
/// `level`, and the decompressor reads `data` out of it again; the call may fail.
#[verifier::external_body]
fn zstd_encode(data: &[u8], level: i32) -> (r: Option<Vec<u8>>)
    ensures
        r matches Some(frame) ==> frame@ == zstd_frame(data@, level as int) && zstd_decoded(frame@)
            == Some(data@),
{
    zstd::stream::encode_all(data, level).ok()
}

/// Calls `zstd::stream::decode_all` on `frame`. What it returns is what the decompressor
/// reads out of the frame. The frame is read from memory, so the call fails only where
/// the decompressor refuses the frame.
#[verifier::external_body]
fn zstd_decode(frame: &[u8]) -> (r: Option<Vec<u8>>)
    ensures
        r matches Some(data) ==> zstd_decoded(frame@) == Some(data@),
        r is None ==> zstd_decoded(frame@) is None,
{
    zstd::stream::decode_all(frame).ok()
}

/// Fills `len` bytes with `ring::rand::SystemRandom::fill`. Nothing is known of the
/// bytes but how many they are.
#[verifier::external_body]
fn random_bytes(len: usize) -> (r: Option<Vec<u8>>)
    ensures
        r matches Some(bytes) ==> bytes@.len() == len,
{
    let mut bytes = vec![0u8; len];
    match ring::rand::SystemRandom::new().fill(&mut bytes) {
        Ok(()) => Some(bytes),
        Err(_) => None,
    }
}

/// Calls `XChaCha20Poly1305::encrypt_in_place_detached` with no associated data. It
/// refuses only a text of `u32::MAX` blocks of 64 bytes or more. The sealed bytes are as
/// many as the text has, and the same key, nonce and tag open them again.
#[verifier::external_body]
fn aead_seal(key: &Key, nonce: &[u8], text: Vec<u8>) -> (r: Option<(Vec<u8>, Vec<u8>)>)
    requires
        nonce@.len() == 24,
    ensures
        r is Some <==> text@.len() / 64 < 0xFFFF_FFFF,
        r matches Some((sealed, tag)) ==> {
            &&& (sealed@, tag@) == aead_sealed(key@, nonce@, text@)
            &&& sealed@.len() == text@.len()
            &&& tag@.len() == 16
            &&& aead_opened(key@, nonce@, sealed@, tag@) == Some(text@)
        },
{
    let cipher = XChaCha20Poly1305::new(chacha20poly1305::Key::from_slice(key));
    let mut buf = text;
    let nonce = chacha20poly1305::XNonce::from_slice(nonce);
    match cipher.encrypt_in_place_detached(nonce, &[], &mut buf) {
        Ok(tag) => Some((buf, tag.to_vec())),
        Err(_) => None,
    }
}

/// Calls `XChaCha20Poly1305::decrypt_in_place_detached` with no associated data. It
/// gives the text back if the tag fits and refuses the input otherwise.
#[verifier::external_body]
fn aead_open(key: &Key, nonce: &[u8], sealed: Vec<u8>, tag: &[u8]) -> (r: Option<Vec<u8>>)
    requires
        nonce@.len() == 24,
        tag@.len() == 16,
    ensures
        r matches Some(text) ==> aead_opened(key@, nonce@, sealed@, tag@) == Some(text@),
        r is None ==> aead_opened(key@, nonce@, sealed@, tag@) is None,
{
    let cipher = XChaCha20Poly1305::new(chacha20poly1305::Key::from_slice(key));
    let mut buf = sealed;
    let nonce = chacha20poly1305::XNonce::from_slice(nonce);
    let tag = chacha20poly1305::Tag::from_slice(tag);
    match cipher.decrypt_in_place_detached(nonce, &[], &mut buf, tag) {
        Ok(()) => Some(buf),
        Err(_) => None,
    }
}

/// The sealed bytes of a blob: all but its last 40 bytes.
pub open spec fn blob_body(blob: Seq<u8>) -> Seq<u8> {
    blob.take(blob.len() - 40)
}

/// The nonce of a blob: the 24 bytes before its tag.
pub open spec fn blob_nonce(blob: Seq<u8>) -> Seq<u8> {
    blob.subrange(blob.len() - 40, blob.len() - 16)
}

/// The tag of a blob: its last 16 bytes.
pub open spec fn blob_tag(blob: Seq<u8>) -> Seq<u8> {
    blob.skip(blob.len() - 16)
}

/// What opening `blob` under `key` gives: nothing for a blob under 40 bytes or with a
/// tag that does not fit, else what the decompressor reads out of the opened bytes.
pub open spec fn unpacked(key: Seq<u8>, blob: Seq<u8>) -> Option<Seq<u8>> {
    if blob.len() < 40 {
        None
    } else {
        match aead_opened(key, blob_nonce(blob), blob_body(blob), blob_tag(blob)) {
            None => None,
            Some(frame) => zstd_decoded(frame),
        }
    }
}

/// Whether `blob` is `data`, compressed at `level` and sealed under `key` with `nonce`.
pub open spec fn packed_with(
    key: Seq<u8>,
    level: int,
    data: Seq<u8>,
    nonce: Seq<u8>,
    blob: Seq<u8>,
) -> bool {
    let frame = zstd_frame(data, level);
    let (sealed, tag) = aead_sealed(key, nonce, frame);
    &&& nonce.len() == 24
    &&& tag.len() == 16
    &&& sealed.len() == frame.len()
    &&& blob == sealed + nonce + tag
    &&& aead_opened(key, nonce, sealed, tag) == Some(frame)
    &&& zstd_decoded(frame) == Some(data)
}

/// Opening what was packed gives the data back.
pub proof fn lemma_pack_round_trip(
    key: Seq<u8>,
    level: int,
    data: Seq<u8>,
    nonce: Seq<u8>,
    blob: Seq<u8>,
)
    requires
        packed_with(key, level, data, nonce, blob),
    ensures
        blob.len() == zstd_frame(data, level).len() + 40,
        blob_nonce(blob) == nonce,
        unpacked(key, blob) == Some(data),
{
    let frame = zstd_frame(data, level);
    let (sealed, tag) = aead_sealed(key, nonce, frame);
    assert(blob_body(blob) =~= sealed);
    assert(blob_nonce(blob) =~= nonce);
    assert(blob_tag(blob) =~= tag);
}

/// Puts the three parts of a blob together.
pub fn frame_blob(sealed: Vec<u8>, nonce: &[u8], tag: &[u8]) -> (blob: Vec<u8>)
    ensures
        blob@ == sealed@ + nonce@ + tag@,
{
    let mut blob = sealed;
    append_bytes(&mut blob, nonce);
    append_bytes(&mut blob, tag);
    blob
}

/// Takes a blob apart into sealed bytes, nonce and tag. Fails on a blob that is too
/// short to hold a nonce and a tag, and on no other.
pub fn split_blob(blob: &[u8]) -> (r: Result<(Vec<u8>, Vec<u8>, Vec<u8>), PackError>)
    ensures
        blob@.len() < 40 <==> r is Err,
        r matches Err(e) ==> e == PackError::TooShort,
        r matches Ok((sealed, nonce, tag)) ==> {
            &&& sealed@ == blob_body(blob@)
            &&& nonce@ == blob_nonce(blob@)
            &&& tag@ == blob_tag(blob@)
        },
{
    let len = blob.len();
    if len < TAG_LEN + NONCE_LEN {
        return Err(PackError::TooShort);
    }
    let tag = copy_bytes(slice_subrange(blob, len - TAG_LEN, len));
    let nonce = copy_bytes(slice_subrange(blob, len - TAG_LEN - NONCE_LEN, len - TAG_LEN));
    let sealed = copy_bytes(slice_subrange(blob, 0, len - TAG_LEN - NONCE_LEN));
    Ok((sealed, nonce, tag))
}

/// Seals a compressed `frame` under `key` with `nonce` and returns the blob: the sealed
/// bytes, the nonce and the tag. Only a frame of `u32::MAX` blocks of 64 bytes or more
/// is refused, as too long for the cipher.
pub fn seal_frame(key: &Key, nonce: &[u8], frame: Vec<u8>) -> (r: Result<Vec<u8>, PackError>)
    requires
        nonce@.len() == 24,
    ensures
        r is Ok <==> frame@.len() / 64 < 0xFFFF_FFFF,
        r matches Err(e) ==> e == PackError::Encrypt,
        r matches Ok(blob) ==> {
            let (sealed, tag) = aead_sealed(key@, nonce@, frame@);
            &&& blob@ == sealed + nonce@ + tag
            &&& sealed.len() == frame@.len()
            &&& tag.len() == 16
            &&& blob@.len() == frame@.len() + 40
            &&& blob_nonce(blob@) == nonce@
            &&& aead_opened(key@, blob_nonce(blob@), blob_body(blob@), blob_tag(blob@)) == Some(
                frame@,
            )
        },
{
    let ghost text = frame@;
    let (sealed, tag) = match aead_seal(key, nonce, frame) {
        Some(parts) => parts,
        None => {
            return Err(PackError::Encrypt);
        },
    };
    let blob = frame_blob(sealed, nonce, tag.as_slice());
    proof {
        assert(blob_body(blob@) =~= sealed@);
        assert(blob_nonce(blob@) =~= nonce@);
        assert(blob_tag(blob@) =~= tag@);
    }
    Ok(blob)
}

/// Opens the sealed part of `blob` under `key`. A blob under 40 bytes is refused as too
/// short and one whose tag does not fit as not decryptable; every other blob gives the
/// compressed frame that was sealed into it.
pub fn open_frame(key: &Key, blob: &[u8]) -> (r: Result<Vec<u8>, PackError>)
    ensures
        r == Err::<Vec<u8>, PackError>(PackError::TooShort) <==> blob@.len() < 40,
        r == Err::<Vec<u8>, PackError>(PackError::Decrypt) <==> blob@.len() >= 40 && aead_opened(
            key@,
            blob_nonce(blob@),
            blob_body(blob@),
            blob_tag(blob@),
        ) is None,
        r matches Err(e) ==> e == PackError::TooShort || e == PackError::Decrypt,
        r matches Ok(frame) ==> aead_opened(
            key@,
            blob_nonce(blob@),
            blob_body(blob@),
            blob_tag(blob@),
        ) == Some(frame@),
{
    let (sealed, nonce, tag) = match split_blob(blob) {
        Ok(parts) => parts,
        Err(e) => {
            return Err(e);
        },
    };
    match aead_open(key, nonce.as_slice(), sealed, tag.as_slice()) {
        Some(frame) => Ok(frame),
        None => Err(PackError::Decrypt),
    }
}

/// Compresses `data` at `compression_level`, seals the result under `key` with a fresh
/// random nonce and returns the blob.
///
/// An error comes only from the compressor, the random number generator or a text too
/// long for the cipher. Every blob returned opens to `data` again under `key`.
pub fn pack(key: &Key, compression_level: i32, data: &[u8]) -> (r: Result<Vec<u8>, PackError>)
    ensures
        r matches Ok(blob) ==> {
            &&& packed_with(key@, compression_level as int, data@, blob_nonce(blob@), blob@)
            &&& blob@.len() == zstd_frame(data@, compression_level as int).len() + 40
            &&& unpacked(key@, blob@) == Some(data@)
        },
        r matches Err(e) ==> e == PackError::Compress || e == PackError::Nonce || (e
            == PackError::Encrypt && zstd_frame(data@, compression_level as int).len() / 64
            >= 0xFFFF_FFFF),
{
    let frame = match zstd_encode(data, compression_level) {
        Some(frame) => frame,
        None => {
            return Err(PackError::Compress);
        },
    };
    let nonce = match random_bytes(NONCE_LEN) {
        Some(nonce) => nonce,
        None => {
            return Err(PackError::Nonce);
        },
    };
    let blob = match seal_frame(key, nonce.as_slice(), frame) {
        Ok(blob) => blob,
        Err(e) => {
            return Err(e);
        },
    };
    proof {
        let (sealed, tag) = aead_sealed(key@, nonce@, zstd_frame(data@, compression_level as int));
        assert(blob_body(blob@) =~= sealed);
        assert(blob_tag(blob@) =~= tag);
        lemma_pack_round_trip(key@, compression_level as int, data@, nonce@, blob@);
    }
    Ok(blob)
}

/// Opens a blob under `key` and decompresses what it holds.
///
/// A blob under 40 bytes is refused as too short, a blob whose tag does not fit as not
/// decryptable, and one whose opened bytes the decompressor refuses as not
/// decompressible; every other blob gives what the decompressor reads out of it.
pub fn unpack(key: &Key, blob: &[u8]) -> (r: Result<Vec<u8>, PackError>)
    ensures
        r is Ok <==> unpacked(key@, blob@) is Some,
        r == Err::<Vec<u8>, PackError>(PackError::Decompress) <==> blob@.len() >= 40 && aead_opened(
            key@,
            blob_nonce(blob@),
            blob_body(blob@),
            blob_tag(blob@),
        ) is Some && unpacked(key@, blob@) is None,
        r == Err::<Vec<u8>, PackError>(PackError::TooShort) <==> blob@.len() < 40,
        r == Err::<Vec<u8>, PackError>(PackError::Decrypt) <==> blob@.len() >= 40 && aead_opened(
            key@,
            blob_nonce(blob@),
            blob_body(blob@),
            blob_tag(blob@),
        ) is None,
        r matches Ok(data) ==> unpacked(key@, blob@) == Some(data@),
        r matches Err(e) ==> e == PackError::TooShort || e == PackError::Decrypt || e
            == PackError::Decompress,
{
    let frame = match open_frame(key, blob) {
        Ok(frame) => frame,
        Err(e) => {
            return Err(e);
        },
    };
    match zstd_decode(frame.as_slice()) {
        Some(data) => Ok(data),
        None => Err(PackError::Decompress),
    }
}

} // verus!
