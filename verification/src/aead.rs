//! Authenticated encryption above the transport: ChaCha20-Poly1305
//! (RFC 8439) on application payloads.
//!
//! ```text
//! application message
//!         |
//!    ChaCha20-Poly1305    <- this module
//!         |  ciphertext || tag
//!         v
//!      transport          <- still one DATA byte per frame + CRC-8
//! ```
//!
//! The frame's CRC-8 only detects accidental bit errors; it does not
//! authenticate. Buffers belong to the caller; nothing is allocated. A
//! nonce must never repeat under one key.

use vstd::prelude::*;
use chacha20poly1305::aead::{AeadInPlace, KeyInit};
use chacha20poly1305::{ChaCha20Poly1305, Key, Nonce, Tag};
use chacha20poly1305::aead::Error as CipherError;

verus! {

/// ChaCha20 key length, in bytes.
pub const KEY_LEN: usize = 32;

/// Poly1305 tag length, in bytes.
pub const TAG_LEN: usize = 16;

/// IETF ChaCha20-Poly1305 nonce length, in bytes.
pub const NONCE_LEN: usize = 12;

/// The cipher refuses a buffer of this many whole 64-byte blocks or more:
/// its 32-bit block counter would wrap.
pub const MAX_BLOCKS: usize = 0xffff_ffff;

/// Keystream blocks left once the counter starts at block 1, as the cipher
/// sets it for every message (block 0 keys Poly1305).
pub const KEYSTREAM_BLOCKS: usize = 0xffff_fffe;

/// The error of the cipher crate: deliberately opaque.
#[verifier::external_type_specification]
#[verifier::external_body]
pub struct ExCipherError(CipherError);

/// What XOR-ing `data` with the ChaCha20 keystream of `key` and `nonce`,
/// from block counter 1, gives. Encryption and decryption both apply it.
pub uninterp spec fn chacha20_keystream_apply(key: Seq<u8>, nonce: Seq<u8>, data: Seq<u8>) -> Seq<u8>;

/// The Poly1305 tag that ChaCha20-Poly1305 computes over `aad` and
/// `ciphertext` under `key` and `nonce`.
pub uninterp spec fn chacha20poly1305_tag(
    key: Seq<u8>,
    nonce: Seq<u8>,
    aad: Seq<u8>,
    ciphertext: Seq<u8>,
) -> Seq<u8>;

/// How many 64-byte keystream blocks a buffer of `len` bytes takes.
pub open spec fn blocks_needed(len: nat) -> nat {
    len / 64 + if len % 64 == 0 { 0nat } else { 1nat }
}

/// The cipher refuses a buffer of this length and returns an error.
pub open spec fn length_refused(len: nat) -> bool {
    len / 64 >= MAX_BLOCKS
}

/// The cipher accepts a buffer of this length: its keystream covers it.
pub open spec fn length_accepted(len: nat) -> bool {
    blocks_needed(len) <= KEYSTREAM_BLOCKS
}

/// The lengths the cipher's length check lets through although the
/// keystream left after block 0 cannot cover them: applying the keystream
/// to such a buffer panics.
pub open spec fn keystream_overruns(len: nat) -> bool {
    !length_refused(len) && !length_accepted(len)
}

/// Whether the keystream would run out on a buffer of `len` bytes.
fn overruns(len: usize) -> (b: bool)
    ensures
        b == keystream_overruns(len as nat),
{
    len / 64 == KEYSTREAM_BLOCKS && len % 64 != 0
}

/// Calls `AeadInPlace::encrypt_in_place_detached` of `ChaCha20Poly1305`
/// on a cipher made by `KeyInit::new` from `key` (which only stores the
/// key).
///
/// Claimed, as the crate's source shows: a buffer of `2^32 - 1` whole
/// blocks or more is refused and left as it was; a buffer that needs more
/// keystream blocks than the `2^32 - 2` left after block 0 would make the
/// keystream panic, and is not allowed here; otherwise the buffer is XOR-ed
/// with the keystream, so that applying the keystream once more gives the
/// plaintext back, and the tag is computed over `aad` and the ciphertext.
#[verifier::external_body]
fn chacha20poly1305_encrypt(
    key: &[u8; KEY_LEN],
    nonce: &[u8; NONCE_LEN],
    aad: &[u8],
    buf: &mut [u8],
) -> (r: Result<[u8; TAG_LEN], CipherError>)
    requires
        !keystream_overruns(old(buf)@.len()),
    ensures
        final(buf)@.len() == old(buf)@.len(),
        length_refused(old(buf)@.len()) ==> r is Err && final(buf)@ == old(buf)@,
        length_accepted(old(buf)@.len()) ==> {
            &&& r matches Ok(t) && t@ == chacha20poly1305_tag(key@, nonce@, aad@, final(buf)@)
            &&& final(buf)@ == chacha20_keystream_apply(key@, nonce@, old(buf)@)
            &&& chacha20_keystream_apply(key@, nonce@, final(buf)@) == old(buf)@
        },
{
    let cipher = ChaCha20Poly1305::new(Key::from_slice(key));
    let tag: Tag = cipher.encrypt_in_place_detached(Nonce::from_slice(nonce), aad, buf)?;
    let mut out = [0u8; TAG_LEN];
    out.copy_from_slice(tag.as_slice());
    Ok(out)
}

/// Calls `AeadInPlace::decrypt_in_place_detached` of `ChaCha20Poly1305`
/// on a cipher made by `KeyInit::new` from `key`.
///
/// Claimed, as the crate's source shows: a buffer of `2^32 - 1` whole
/// blocks or more is refused; a buffer that needs more keystream blocks
/// than the `2^32 - 2` left after block 0 would make the keystream panic
/// once its tag matches, and is not allowed here; otherwise the call
/// succeeds exactly when `tag` is the tag of `aad` and the buffer, and only
/// then is the buffer XOR-ed with the keystream. On failure the buffer is
/// left as it was.
#[verifier::external_body]
fn chacha20poly1305_decrypt(
    key: &[u8; KEY_LEN],
    nonce: &[u8; NONCE_LEN],
    aad: &[u8],
    buf: &mut [u8],
    tag: &[u8; TAG_LEN],
) -> (r: Result<(), CipherError>)
    requires
        !keystream_overruns(old(buf)@.len()),
    ensures
        final(buf)@.len() == old(buf)@.len(),
        length_refused(old(buf)@.len()) ==> r is Err,
        length_accepted(old(buf)@.len()) ==> (r is Ok <==> tag@ == chacha20poly1305_tag(
            key@,
            nonce@,
            aad@,
            old(buf)@,
        )),
        r is Ok ==> final(buf)@ == chacha20_keystream_apply(key@, nonce@, old(buf)@),
        r is Err ==> final(buf)@ == old(buf)@,
{
    let cipher = ChaCha20Poly1305::new(Key::from_slice(key));
    cipher.decrypt_in_place_detached(Nonce::from_slice(nonce), aad, buf, Tag::from_slice(tag))
}

/// `plaintext_len + TAG_LEN`, or `None` on overflow.
pub fn sealed_len(plaintext_len: usize) -> (r: Option<usize>)
    ensures
        plaintext_len + TAG_LEN <= usize::MAX ==> r == Some((plaintext_len + TAG_LEN) as usize),
        plaintext_len + TAG_LEN > usize::MAX ==> r is None,
{
    plaintext_len.checked_add(TAG_LEN)
}

/// AEAD failure.
#[derive(Debug, Clone, Copy, PartialEq, Eq, Structural)]
pub enum AeadError {
    /// The output buffer cannot hold the result.
    Buffer,
    /// Authentication failed, or the cipher refused the inputs.
    Crypto,
}

/// What opening `ciphertext` under `tag` gives: the plaintext when the
/// cipher accepts the length and the tag authenticates the ciphertext.
pub open spec fn spec_open(
    key: Seq<u8>,
    nonce: Seq<u8>,
    aad: Seq<u8>,
    ciphertext: Seq<u8>,
    tag: Seq<u8>,
) -> Option<Seq<u8>> {
    if length_accepted(ciphertext.len()) && tag == chacha20poly1305_tag(key, nonce, aad, ciphertext) {
        Some(chacha20_keystream_apply(key, nonce, ciphertext))
    } else {
        None
    }
}

/// `sealed` is what sealing `plaintext` gives: the ciphertext, which the
/// keystream turns back into the plaintext, followed by its tag.
pub open spec fn sealed_by(
    key: Seq<u8>,
    nonce: Seq<u8>,
    aad: Seq<u8>,
    plaintext: Seq<u8>,
    sealed: Seq<u8>,
) -> bool {
    let c = chacha20_keystream_apply(key, nonce, plaintext);
    &&& length_accepted(plaintext.len())
    &&& c.len() == plaintext.len()
    &&& chacha20_keystream_apply(key, nonce, c) == plaintext
    &&& chacha20poly1305_tag(key, nonce, aad, c).len() == TAG_LEN
    &&& sealed == c + chacha20poly1305_tag(key, nonce, aad, c)
}

/// Encrypts `buf` in place and writes the 16-byte tag into `tag`. `aad`
/// is authenticated but not encrypted (it may be empty). The cipher
/// panics on a buffer its keystream cannot cover; such a buffer is not
/// allowed.
pub fn seal(
    key: &[u8; KEY_LEN],
    nonce: &[u8; NONCE_LEN],
    aad: &[u8],
    buf: &mut [u8],
    tag: &mut [u8; TAG_LEN],
) -> (r: Result<(), AeadError>)
    requires
        !keystream_overruns(old(buf)@.len()),
    ensures
        final(buf)@.len() == old(buf)@.len(),
        !length_accepted(old(buf)@.len()) ==> r == Err::<(), AeadError>(AeadError::Crypto)
            && final(buf)@ == old(buf)@ && final(tag)@ == old(tag)@,
        length_accepted(old(buf)@.len()) ==> {
            &&& r is Ok
            &&& final(buf)@ == chacha20_keystream_apply(key@, nonce@, old(buf)@)
            &&& chacha20_keystream_apply(key@, nonce@, final(buf)@) == old(buf)@
            &&& final(tag)@ == chacha20poly1305_tag(key@, nonce@, aad@, final(buf)@)
        },
{
    match chacha20poly1305_encrypt(key, nonce, aad, buf) {
        Ok(t) => {
            *tag = t;
            Ok(())
        },
        Err(_) => Err(AeadError::Crypto),
    }
}

/// Decrypts `buf` in place after checking `tag`. On failure the buffer is
/// left as it was, and must be treated as untrusted. A buffer longer than
/// the keystream can cover is refused without calling the cipher, which
/// would fail on a wrong tag and panic on a right one.
pub fn open(
    key: &[u8; KEY_LEN],
    nonce: &[u8; NONCE_LEN],
    aad: &[u8],
    buf: &mut [u8],
    tag: &[u8; TAG_LEN],
) -> (r: Result<(), AeadError>)
    ensures
        final(buf)@.len() == old(buf)@.len(),
        match spec_open(key@, nonce@, aad@, old(buf)@, tag@) {
            Some(p) => r is Ok && final(buf)@ == p,
            None => r == Err::<(), AeadError>(AeadError::Crypto) && final(buf)@ == old(buf)@,
        },
{
    if overruns(buf.len()) {
        return Err(AeadError::Crypto);
    }
    match chacha20poly1305_decrypt(key, nonce, aad, buf, tag) {
        Ok(()) => Ok(()),
        Err(_) => Err(AeadError::Crypto),
    }
}

/// Copies `src` into the front of `dst`.
fn copy_prefix(dst: &mut [u8], src: &[u8])
    requires
        src@.len() <= old(dst)@.len(),
    ensures
        final(dst)@ == src@ + old(dst)@.skip(src@.len() as int),
{
    let ghost d0 = dst@;
    let mut i: usize = 0;
    while i < src.len()
        invariant
            i <= src@.len(),
            src@.len() <= d0.len(),
            dst@.len() == d0.len(),
            dst@.subrange(0, i as int) == src@.subrange(0, i as int),
            dst@.skip(i as int) == d0.skip(i as int),
        decreases src@.len() - i,
    {
        let ghost before = dst@;
        dst[i] = src[i];
        assert(dst@.subrange(0, i + 1) =~= src@.subrange(0, i + 1)) by {
            assert(dst@.subrange(0, i as int) =~= before.subrange(0, i as int));
        }
        assert(dst@.skip(i + 1) =~= d0.skip(i + 1)) by {
            assert(before.skip(i as int).drop_first() =~= before.skip(i + 1));
            assert(d0.skip(i as int).drop_first() =~= d0.skip(i + 1));
        }
        i = i + 1;
    }
    assert(dst@ =~= src@ + d0.skip(src@.len() as int)) by {
        assert(dst@ =~= dst@.subrange(0, i as int) + dst@.skip(i as int));
        assert(src@.subrange(0, i as int) =~= src@);
    }
}

/// Seals `plaintext` into `out` as `ciphertext || tag` and returns the
/// number of bytes written. `out` must hold `plaintext.len() + TAG_LEN`
/// bytes; what lies beyond is left as it was. As with [`seal`], a
/// plaintext the keystream cannot cover is not allowed.
pub fn seal_to(
    key: &[u8; KEY_LEN],
    nonce: &[u8; NONCE_LEN],
    aad: &[u8],
    plaintext: &[u8],
    out: &mut [u8],
) -> (r: Result<usize, AeadError>)
    requires
        plaintext@.len() + TAG_LEN <= old(out)@.len() ==> !keystream_overruns(plaintext@.len()),
    ensures
        final(out)@.len() == old(out)@.len(),
        plaintext@.len() + TAG_LEN > usize::MAX || old(out)@.len() < plaintext@.len() + TAG_LEN
            ==> r == Err::<usize, AeadError>(AeadError::Buffer) && final(out)@ == old(out)@,
        plaintext@.len() + TAG_LEN <= old(out)@.len() && length_refused(plaintext@.len())
            ==> r == Err::<usize, AeadError>(AeadError::Crypto) && final(out)@ == plaintext@ + old(
            out,
        )@.skip(plaintext@.len() as int),
        plaintext@.len() + TAG_LEN <= old(out)@.len() && length_accepted(plaintext@.len()) ==> {
            let n = plaintext@.len() + TAG_LEN;
            &&& r == Ok::<usize, AeadError>(n as usize)
            &&& sealed_by(key@, nonce@, aad@, plaintext@, final(out)@.take(n))
            &&& final(out)@.skip(n) == old(out)@.skip(n)
        },
{
    let out_len = out.len();
    let need = match plaintext.len().checked_add(TAG_LEN) {
        Some(n) => n,
        None => return Err(AeadError::Buffer),
    };
    if out_len < need {
        return Err(AeadError::Buffer);
    }
    let ghost o0 = out@;
    let n = plaintext.len();
    copy_prefix(out, plaintext);
    let ghost copied = out@;
    let mut tag = [0u8; TAG_LEN];
    let (body, tag_slot) = out.split_at_mut(n);
    assert(body@ == plaintext@) by {
        assert(copied.subrange(0, n as int) =~= plaintext@);
    }
    let sealed = seal(key, nonce, aad, body, &mut tag);
    match sealed {
        Ok(()) => {
            let ghost t0 = tag_slot@;
            copy_prefix(tag_slot, &tag);
            let ghost c = body@;
            let ghost ts = tag_slot@;
            assert(out@ == c + ts);
            proof {
                assert(t0 =~= copied.skip(n as int));
                assert(out@.take(need as int) =~= c + tag@);
                assert(out@.skip(need as int) =~= o0.skip(need as int));
            }
            Ok(need)
        },
        Err(e) => {
            let ghost b = body@;
            let ghost ts = tag_slot@;
            assert(out@ == b + ts);
            proof {
                assert(ts =~= copied.skip(n as int));
                assert(out@ =~= plaintext@ + o0.skip(n as int));
            }
            Err(e)
        },
    }
}

/// Opens `ciphertext || tag` from `input` into `out` and returns the
/// plaintext length. On failure the front of `out` may hold the copied
/// ciphertext; it must be treated as untrusted.
pub fn open_from(
    key: &[u8; KEY_LEN],
    nonce: &[u8; NONCE_LEN],
    aad: &[u8],
    input: &[u8],
    out: &mut [u8],
) -> (r: Result<usize, AeadError>)
    ensures
        input@.len() < TAG_LEN ==> r == Err::<usize, AeadError>(AeadError::Crypto) && final(out)@
            == old(out)@,
        input@.len() >= TAG_LEN && old(out)@.len() < input@.len() - TAG_LEN ==> r == Err::<
            usize,
            AeadError,
        >(AeadError::Buffer) && final(out)@ == old(out)@,
        input@.len() >= TAG_LEN && old(out)@.len() >= input@.len() - TAG_LEN ==> {
            let n = input@.len() - TAG_LEN;
            let ct = input@.take(n);
            let t = input@.skip(n);
            &&& final(out)@.len() == old(out)@.len()
            &&& final(out)@.skip(n) == old(out)@.skip(n)
            &&& match spec_open(key@, nonce@, aad@, ct, t) {
                Some(p) => r == Ok::<usize, AeadError>(n as usize) && final(out)@.take(n) == p,
                None => r == Err::<usize, AeadError>(AeadError::Crypto),
            }
        },
{
    if input.len() < TAG_LEN {
        return Err(AeadError::Crypto);
    }
    let pt_len = input.len() - TAG_LEN;
    if out.len() < pt_len {
        return Err(AeadError::Buffer);
    }
    let (ct, tag_bytes) = input.split_at(pt_len);
    let tag = [
        tag_bytes[0], tag_bytes[1], tag_bytes[2], tag_bytes[3], tag_bytes[4], tag_bytes[5],
        tag_bytes[6], tag_bytes[7], tag_bytes[8], tag_bytes[9], tag_bytes[10], tag_bytes[11],
        tag_bytes[12], tag_bytes[13], tag_bytes[14], tag_bytes[15],
    ];
    assert(tag@ =~= input@.skip(pt_len as int));
    let ghost o0 = out@;
    copy_prefix(out, ct);
    let ghost copied = out@;
    let (body, _rest) = out.split_at_mut(pt_len);
    assert(body@ =~= ct@);
    let ghost r0 = _rest@;
    let opened = open(key, nonce, aad, body, &tag);
    let ghost b = body@;
    assert(out@ == b + r0);
    proof {
        assert(r0 =~= copied.skip(pt_len as int));
        assert(out@.take(pt_len as int) =~= b);
        assert(out@.skip(pt_len as int) =~= o0.skip(pt_len as int));
        assert(ct@ =~= input@.take(pt_len as int));
    }
    match opened {
        Ok(()) => Ok(pt_len),
        Err(e) => Err(e),
    }
}

/// Sealing then opening with the same key, nonce and associated data
/// gives back the plaintext: whatever `seal_to` wrote, `open_from` turns
/// into the original message.
pub proof fn lemma_seal_open(
    key: Seq<u8>,
    nonce: Seq<u8>,
    aad: Seq<u8>,
    plaintext: Seq<u8>,
    sealed: Seq<u8>,
)
    requires
        sealed_by(key, nonce, aad, plaintext, sealed),
    ensures
        sealed.len() == plaintext.len() + TAG_LEN,
        spec_open(
            key,
            nonce,
            aad,
            sealed.take(plaintext.len() as int),
            sealed.skip(plaintext.len() as int),
        ) == Some(plaintext),
{
    let c = chacha20_keystream_apply(key, nonce, plaintext);
    let n = plaintext.len() as int;
    assert(sealed.take(n) =~= c);
    assert(sealed.skip(n) =~= chacha20poly1305_tag(key, nonce, aad, c));
}

} // verus!
