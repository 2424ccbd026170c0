//! The checks in front of the registry: signed admission with the capacity
//! limit, the broadcast key, and the connection limit read from configuration.

use crate::signature::{constant_time_eq, signature_accepted, verify_signature};
use vstd::prelude::*;
use vstd::string::*;

verus! {

/// The body of a broadcast request.
pub struct BroadcastMessage {
    pub message: String,
    pub room: String,
}

/// The query of a wire upgrade request.
pub struct WsConnectionParams {
    pub room: String,
    pub signature: String,
}

/// Why a wire upgrade was refused.
#[derive(Clone, Copy, Debug, PartialEq, Eq, Structural)]
pub enum AdmissionError {
    /// The signature does not match the room, or no signing key is set.
    InvalidSignature,
    /// As many clients as the limit allows are connected.
    ConnectionLimitReached,
}

/// Why a broadcast request was refused.
#[derive(Clone, Copy, Debug, PartialEq, Eq, Structural)]
pub enum BroadcastError {
    /// The broadcast key header is missing or wrong.
    InvalidBroadcastKey,
}

/// The connection limit when none is configured or it does not parse.
pub const DEFAULT_CONNECTION_LIMIT: usize = 1000;

/// Whether `signing_key` is set and admits `signature` for `room`.
pub open spec fn key_admits(signing_key: Option<&str>, room: Seq<char>, signature: Seq<char>) -> bool {
    match signing_key {
        Some(k) => signature_accepted(k@, room, signature),
        None => false,
    }
}

/// The outcome of an upgrade request: the signature is checked first, then
/// the number of connected clients against the limit.
pub open spec fn admission(
    signing_key: Option<&str>,
    room: Seq<char>,
    signature: Seq<char>,
    connections: nat,
    limit: nat,
) -> Result<(), AdmissionError> {
    if !key_admits(signing_key, room, signature) {
        Err(AdmissionError::InvalidSignature)
    } else if connections >= limit {
        Err(AdmissionError::ConnectionLimitReached)
    } else {
        Ok(())
    }
}

/// Decides whether a wire upgrade for `params` is admitted while
/// `connections` clients are registered.
pub fn admit_connection(
    signing_key: Option<&str>,
    params: &WsConnectionParams,
    connections: usize,
    limit: usize,
) -> (r: Result<(), AdmissionError>)
    ensures
        r == admission(
            signing_key,
            params.room@,
            params.signature@,
            connections as nat,
            limit as nat,
        ),
{
    if !verify_signature(signing_key, params.room.as_str(), params.signature.as_str()) {
        return Err(AdmissionError::InvalidSignature);
    }
    if connections >= limit {
        return Err(AdmissionError::ConnectionLimitReached);
    }
    Ok(())
}

/// A key was presented and it is `key`.
pub open spec fn key_presented(provided: Option<&str>, key: Seq<char>) -> bool {
    match provided {
        Some(p) => p@ == key,
        None => false,
    }
}

/// Whether the presented broadcast key is there and equals the configured one.
pub fn broadcast_key_matches(provided: Option<&str>, broadcast_key: &str) -> (r: bool)
    ensures
        r == key_presented(provided, broadcast_key@),
{
    match provided {
        Some(p) => constant_time_eq(p, broadcast_key),
        None => false,
    }
}

pub open spec fn is_digit(c: char) -> bool {
    '0' <= c && c <= '9'
}

/// The value of a string of decimal digits.
pub open spec fn digits_value(s: Seq<char>) -> nat
    decreases s.len(),
{
    if s.len() == 0 {
        0
    } else {
        digits_value(s.drop_last()) * 10 + ((s.last() as u32) as int - ('0' as u32) as int) as nat
    }
}

/// The digits of an unsigned decimal, after an optional leading `+`.
pub open spec fn unsigned_digits(s: Seq<char>) -> Seq<char> {
    if s.len() > 0 && s[0] == '+' {
        s.drop_first()
    } else {
        s
    }
}

pub open spec fn all_digits(s: Seq<char>) -> bool {
    s.len() > 0 && forall|i: int| 0 <= i < s.len() ==> is_digit(#[trigger] s[i])
}

/// `s` read as an unsigned decimal that fits in `usize`.
pub open spec fn parsed_usize(s: Seq<char>) -> Option<nat> {
    let d = unsigned_digits(s);
    if all_digits(d) && digits_value(d) <= usize::MAX {
        Some(digits_value(d))
    } else {
        None
    }
}

/// The configured connection limit, or the default when it is missing or
/// does not parse.
pub open spec fn connection_limit_of(raw: Option<Seq<char>>) -> nat {
    match raw {
        Some(s) => match parsed_usize(s) {
            Some(v) => v,
            None => DEFAULT_CONNECTION_LIMIT as nat,
        },
        None => DEFAULT_CONNECTION_LIMIT as nat,
    }
}

proof fn lemma_digits_prefix(s: Seq<char>, k: int)
    requires
        0 <= k <= s.len(),
        forall|i: int| 0 <= i < s.len() ==> is_digit(#[trigger] s[i]),
    ensures
        digits_value(s.subrange(0, k)) <= digits_value(s),
    decreases s.len(),
{
    if k < s.len() {
        let d = s.drop_last();
        assert(is_digit(s[s.len() - 1]));
        assert forall|i: int| 0 <= i < d.len() implies is_digit(#[trigger] d[i]) by {
            assert(d[i] == s[i]);
        }
        lemma_digits_prefix(d, k);
        assert(d.subrange(0, k) =~= s.subrange(0, k));
    } else {
        assert(s.subrange(0, k) =~= s);
    }
}

/// Reads `s` as an unsigned decimal `usize`: an optional `+`, then one or
/// more digits.
pub fn parse_usize(s: &str) -> (r: Option<usize>)
    ensures
        match r {
            Some(v) => parsed_usize(s@) == Some(v as nat),
            None => parsed_usize(s@) is None,
        },
{
    let n = s.unicode_len();
    let mut start: usize = 0;
    if n > 0 && s.get_char(0) == '+' {
        start = 1;
    }
    let ghost d = unsigned_digits(s@);
    assert(d =~= s@.subrange(start as int, n as int));
    if start == n {
        return None;
    }
    let mut value: usize = 0;
    let mut i: usize = start;
    while i < n
        invariant
            n == s@.len(),
            start < n,
            start <= i <= n,
            d == s@.subrange(start as int, n as int),
            d == unsigned_digits(s@),
            value as nat == digits_value(d.subrange(0, i - start)),
            forall|k: int| 0 <= k < i - start ==> is_digit(#[trigger] d[k]),
        decreases n - i,
    {
        let c = s.get_char(i);
        assert(d[i - start] == c);
        if !('0' <= c && c <= '9') {
            assert(!is_digit(d[i - start]));
            assert(!all_digits(d));
            return None;
        }
        let digit = (c as u32 - '0' as u32) as usize;
        let ghost next = d.subrange(0, i - start + 1);
        assert(next.drop_last() =~= d.subrange(0, i - start));
        assert(next.last() == c);
        let step = match value.checked_mul(10) {
            Some(m) => m.checked_add(digit),
            None => None,
        };
        match step {
            Some(v) => {
                value = v;
            },
            None => {
                proof {
                    assert(digits_value(next) == value * 10 + digit);
                    assert(value * 10 + digit > usize::MAX);
                    if all_digits(d) {
                        lemma_digits_prefix(d, i - start + 1);
                    }
                }
                return None;
            },
        }
        i = i + 1;
    }
    assert(d.subrange(0, n - start) =~= d);
    Some(value)
}

/// The connection limit from its configured text, if any.
pub fn parse_connection_limit(raw: Option<&str>) -> (r: usize)
    ensures
        r as nat == connection_limit_of(
            match raw {
                Some(s) => Some(s@),
                None => None,
            },
        ),
{
    match raw {
        Some(s) => match parse_usize(s) {
            Some(v) => v,
            None => DEFAULT_CONNECTION_LIMIT,
        },
        None => DEFAULT_CONNECTION_LIMIT,
    }
}

} // verus!
