//! Signed room admission: HMAC-SHA-256 over the room name, encoded as
//! URL-safe Base64 without padding, compared in constant time.

use base64::engine::general_purpose::URL_SAFE_NO_PAD;
use base64::Engine;
use hmac::{Hmac, Mac};
use sha2::Sha256;
use crate::gates::key_presented;
use vstd::prelude::*;
use vstd::string::*;
use vstd::utf8::*;

verus! {

/// The 32-byte HMAC-SHA-256 tag of `msg` under `key`.
pub uninterp spec fn hmac_sha256_of(key: Seq<u8>, msg: Seq<u8>) -> Seq<u8>;

/// The URL-safe Base64 text of `bytes`, without padding.
pub uninterp spec fn base64url_nopad_of(bytes: Seq<u8>) -> Seq<char>;

/// A character of the URL-safe Base64 alphabet.
pub open spec fn is_url_safe_char(c: char) -> bool {
    ('A' <= c && c <= 'Z') || ('a' <= c && c <= 'z') || ('0' <= c && c <= '9') || c == '-' || c
        == '_'
}

/// The admission token of `room` under the signing key `key`.
pub open spec fn signature_of(key: Seq<char>, room: Seq<char>) -> Seq<char> {
    base64url_nopad_of(hmac_sha256_of(encode_utf8(key), encode_utf8(room)))
}

/// Whether `signature` admits its bearer to `room` under the signing key `key`.
pub open spec fn signature_accepted(key: Seq<char>, room: Seq<char>, signature: Seq<char>) -> bool {
    signature == signature_of(key, room)
}

/// A character allowed in a room name: ASCII letters, digits and `-`.
pub open spec fn is_room_char(c: char) -> bool {
    ('A' <= c && c <= 'Z') || ('a' <= c && c <= 'z') || ('0' <= c && c <= '9') || c == '-'
}

/// A room name is non-empty and made of room characters only.
pub open spec fn valid_room_name(room: Seq<char>) -> bool {
    room.len() > 0 && forall|i: int| 0 <= i < room.len() ==> is_room_char(#[trigger] room[i])
}

/// Relies on hmac's `Hmac::<Sha256>`: `new_from_slice` accepts a key of any
/// length, and the finalized tag is the 32-byte HMAC-SHA-256 of the message.
#[verifier::external_body]
fn hmac_sha256(key: &[u8], msg: &[u8]) -> (r: Vec<u8>)
    ensures
        r@ == hmac_sha256_of(key@, msg@),
        r@.len() == 32,
{
    let mut mac = Hmac::<Sha256>::new_from_slice(key).expect("HMAC takes a key of any length");
    mac.update(msg);
    mac.finalize().into_bytes().to_vec()
}

/// Relies on base64's `URL_SAFE_NO_PAD.encode`: URL-safe alphabet
/// (`A-Z a-z 0-9 - _`), no `=` padding.
#[verifier::external_body]
fn encode_url_safe_no_pad(bytes: &[u8]) -> (r: String)
    ensures
        r@ == base64url_nopad_of(bytes@),
        forall|i: int| 0 <= i < r@.len() ==> is_url_safe_char(#[trigger] r@[i]),
{
    URL_SAFE_NO_PAD.encode(bytes)
}

/// The admission token for `room` under `signing_key`.
pub fn sign_room(signing_key: &str, room: &str) -> (r: String)
    ensures
        r@ == signature_of(signing_key@, room@),
        forall|i: int| 0 <= i < r@.len() ==> is_url_safe_char(#[trigger] r@[i]),
{
    let tag = hmac_sha256(signing_key.as_bytes(), room.as_bytes());
    encode_url_safe_no_pad(tag.as_slice())
}

/// Equality of two strings whose running time depends on their lengths only,
/// not on where they first differ.
pub fn constant_time_eq(a: &str, b: &str) -> (r: bool)
    ensures
        r == (a@ == b@),
{
    let x = a.as_bytes();
    let y = b.as_bytes();
    proof {
        encode_utf8_decode_utf8(a@);
        encode_utf8_decode_utf8(b@);
    }
    if x.len() != y.len() {
        return false;
    }
    let mut diff: u8 = 0;
    let mut i: usize = 0;
    while i < x.len()
        invariant
            x@.len() == y@.len(),
            i <= x@.len(),
            (diff == 0) == (x@.subrange(0, i as int) =~= y@.subrange(0, i as int)),
        decreases x@.len() - i,
    {
        let xi = x[i];
        let yi = y[i];
        let next: u8 = diff | (xi ^ yi);
        assert((next == 0) == (diff == 0 && xi == yi)) by (bit_vector)
            requires
                next == diff | (xi ^ yi),
        ;
        assert(x@.subrange(0, i + 1) =~= x@.subrange(0, i as int).push(xi));
        assert(y@.subrange(0, i + 1) =~= y@.subrange(0, i as int).push(yi));
        if diff == 0 && xi != yi {
            assert(x@.subrange(0, i + 1)[i as int] != y@.subrange(0, i + 1)[i as int]);
        }
        if diff != 0 {
            assert(x@.subrange(0, i + 1).subrange(0, i as int) =~= x@.subrange(0, i as int));
            assert(y@.subrange(0, i + 1).subrange(0, i as int) =~= y@.subrange(0, i as int));
        }
        diff = next;
        i = i + 1;
    }
    assert(x@.subrange(0, x@.len() as int) =~= x@);
    assert(y@.subrange(0, y@.len() as int) =~= y@);
    diff == 0
}

/// Whether `signature` is the admission token of `room`. Without a signing
/// key nothing is admitted.
pub fn verify_signature(signing_key: Option<&str>, room: &str, signature: &str) -> (r: bool)
    ensures
        r == match signing_key {
            Some(k) => signature_accepted(k@, room@, signature@),
            None => false,
        },
{
    match signing_key {
        Some(k) => {
            let expected = sign_room(k, room);
            constant_time_eq(signature, expected.as_str())
        },
        None => false,
    }
}

/// The signed URL that admits its bearer to `room`.
pub open spec fn signed_url(base_url: Seq<char>, room: Seq<char>, signature: Seq<char>) -> Seq<char> {
    base_url + "/?room="@ + room + "&signature="@ + signature
}

/// Why a signed URL was not minted.
#[derive(Clone, Copy, Debug, PartialEq, Eq, Structural)]
pub enum TokenError {
    /// The presented API key is missing or is not the signing key.
    InvalidApiKey,
    /// The room name is empty or holds a character outside `A-Z a-z 0-9 -`.
    InvalidRoomName,
}

/// Whether `room` is a valid room name.
pub fn is_valid_room_name(room: &str) -> (r: bool)
    ensures
        r == valid_room_name(room@),
{
    let n = room.unicode_len();
    if n == 0 {
        return false;
    }
    let mut i: usize = 0;
    while i < n
        invariant
            n == room@.len(),
            i <= n,
            forall|k: int| 0 <= k < i ==> is_room_char(#[trigger] room@[k]),
        decreases n - i,
    {
        let c = room.get_char(i);
        let ok = ('A' <= c && c <= 'Z') || ('a' <= c && c <= 'z') || ('0' <= c && c <= '9') || c
            == '-';
        if !ok {
            return false;
        }
        i = i + 1;
    }
    true
}

/// Mints the signed URL for `room`. The caller presents `api_key`, which must
/// be the signing key itself; the room name must be valid.
pub fn create_connection_token(
    base_url: &str,
    signing_key: &str,
    api_key: Option<&str>,
    room: &str,
) -> (r: Result<String, TokenError>)
    ensures
        key_presented(api_key, signing_key@) ==> (r is Err <==> !valid_room_name(room@)),
        match r {
            Ok(url) => {
                &&& key_presented(api_key, signing_key@)
                &&& valid_room_name(room@)
                &&& url@ == signed_url(base_url@, room@, signature_of(signing_key@, room@))
            },
            Err(e) => e == if !key_presented(api_key, signing_key@) {
                TokenError::InvalidApiKey
            } else {
                TokenError::InvalidRoomName
            },
        },
{
    let authorized = match api_key {
        Some(k) => constant_time_eq(k, signing_key),
        None => false,
    };
    if !authorized {
        return Err(TokenError::InvalidApiKey);
    }
    if !is_valid_room_name(room) {
        return Err(TokenError::InvalidRoomName);
    }
    let signature = sign_room(signing_key, room);
    let mut url = String::from_str(base_url);
    url.append("/?room=");
    url.append(room);
    url.append("&signature=");
    url.append(signature.as_str());
    Ok(url)
}

/// Minting and verifying agree: for every valid room name, the URL minted
/// under a key carries the room as its `room` parameter and, as its final
/// `signature` parameter, a token that the verifier accepts under that key.
pub proof fn lemma_mint_then_verify(base_url: Seq<char>, key: Seq<char>, room: Seq<char>)
    requires
        valid_room_name(room),
    ensures
        ({
            let sig = signature_of(key, room);
            let url = signed_url(base_url, room, sig);
            let room_start: int = (base_url.len() + "/?room="@.len()) as int;
            let sig_start: int = room_start + room.len() + "&signature="@.len() as int;
            &&& url.subrange(room_start, room_start + room.len()) == room
            &&& signature_accepted(
                key,
                url.subrange(room_start, room_start + room.len()),
                url.subrange(sig_start, url.len() as int),
            )
        }),
{
    let sig = signature_of(key, room);
    let url = signed_url(base_url, room, sig);
    let room_start: int = (base_url.len() + "/?room="@.len()) as int;
    let sig_start: int = room_start + room.len() + "&signature="@.len() as int;
    assert(url.subrange(room_start, room_start + room.len()) =~= room);
    assert(url.subrange(sig_start, url.len() as int) =~= sig);
}

} // verus!
