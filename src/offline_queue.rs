//! Layout of the offline queue: one list per room in an external store,
//! oldest message first, expiring a day after its last push.

use vstd::prelude::*;
use vstd::string::*;

verus! {

/// Seconds a room's queued messages live after the latest push.
pub const QUEUE_TTL_SECONDS: u64 = 86400;

/// The store key of the queue of `room`.
pub open spec fn queue_key_of(room: Seq<char>) -> Seq<char> {
    "messages:"@ + room
}

/// The store key of the queue of `room`: `messages:` followed by the name.
pub fn queue_key(room: &str) -> (r: String)
    ensures
        r@ == queue_key_of(room@),
{
    let mut key = String::from_str("messages:");
    key.append(room);
    key
}

} // verus!
