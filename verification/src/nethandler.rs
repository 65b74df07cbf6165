//! Client id allocation for the connection manager: a linear search
//! from a rolling hint, wrapping through the whole low range above the
//! reserved server id, never issuing that id.

use vstd::prelude::*;

use std::collections::HashMap;

use crate::packets::ClientId;

verus! {

/// Look for any id that has not been given to a client: a linear
/// search along `start`, `start + 1`, .. up to the largest id, then
/// wrapping to `1`, `2`, .. up to `start - 1`. The first free id along
/// that order is returned, so a freed id is reused only after the
/// search has wrapped past it; `0` stays reserved for the server.
/// Returns `None` exactly when every id of the range is taken.
pub fn search_free_id<T>(map: &HashMap<ClientId, T>, start: ClientId) -> (r: Option<ClientId>)
    requires
        start >= 1,
    ensures
        r is Some ==> 1 <= r.unwrap() < ClientId::MAX && !map@.contains_key(r.unwrap()),
        r is Some && r.unwrap() >= start ==> forall|k: ClientId|
            start <= k < r.unwrap() ==> map@.contains_key(k),
        r is Some && r.unwrap() < start ==> (forall|k: ClientId|
                start <= k < ClientId::MAX ==> map@.contains_key(k))
            && (forall|k: ClientId| 1 <= k < r.unwrap() ==> map@.contains_key(k)),
        r is None <==> (forall|k: ClientId| 1 <= k < ClientId::MAX ==> map@.contains_key(k)),
{
    // Search high, since this is more probable.
    let mut key: ClientId = start;
    while key < ClientId::MAX
        invariant
            start >= 1,
            start <= key,
            forall|k: ClientId| start <= k < key ==> map@.contains_key(k),
        decreases ClientId::MAX - key,
    {
        if !map.contains_key(&key) {
            return Some(key);
        }
        key = key + 1;
    }

    // Search low, since some old keys might be free again.
    let mut low: ClientId = 1;
    while low < start
        invariant
            start >= 1,
            1 <= low <= start,
            forall|k: ClientId| start <= k < ClientId::MAX ==> map@.contains_key(k),
            forall|k: ClientId| 1 <= k < low ==> map@.contains_key(k),
        decreases start - low,
    {
        if !map.contains_key(&low) {
            return Some(low);
        }
        low = low + 1;
    }

    None
}

} // verus!
