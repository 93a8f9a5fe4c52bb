//! The ingest path: from a received datagram to a block.
//!
//! A datagram holds one address as UTF-8 text and nothing else. Every
//! readable datagram installs a drop rule and enters or renews the address
//! in the cache; an unreadable one is dropped and changes nothing.

use vstd::prelude::*;
use vstd::slice::slice_subrange;
use vstd::string::StringSliceAdditionalSpecFns;
use vstd::utf8::{decode_utf8, encode_utf8_decode_utf8, valid_utf8};
use crate::cache::BlockCache;
use crate::command::{CommandView, FirewallCommand};
use crate::text::opt_text;

verus! {

/// `core::str::Utf8Error` of the standard library, the error of
/// `core::str::from_utf8`. Nothing is read from it.
#[verifier::external_type_specification]
#[verifier::external_body]
pub struct ExUtf8Error(core::str::Utf8Error);

/// `core::str::from_utf8` of the standard library: it succeeds exactly on
/// well-formed UTF-8, and the string slice it then returns is made of the
/// bytes it was given.
pub assume_specification[ core::str::from_utf8 ](v: &[u8]) -> (r: Result<
    &str,
    core::str::Utf8Error,
>)
    ensures
        r is Ok <==> valid_utf8(v@),
        r matches Ok(s) ==> s.spec_bytes() == v@,
;

/// What a listener with a receive buffer of `capacity` bytes sees of a
/// datagram: all of it if it fits, else its first `capacity` bytes.
pub open spec fn clipped(datagram: Seq<u8>, capacity: usize) -> Seq<u8> {
    if datagram.len() <= capacity {
        datagram
    } else {
        datagram.take(capacity as int)
    }
}

/// The address a payload holds: its text, if it is well-formed UTF-8.
pub open spec fn decoded(payload: Seq<u8>) -> Option<Seq<char>> {
    if valid_utf8(payload) {
        Some(decode_utf8(payload))
    } else {
        None
    }
}

/// What the listener does with a payload.
pub enum Verdict {
    /// The payload is not text: it is dropped.
    Rejected,
    /// The payload names an address: `command` is due, and `renewed` tells
    /// whether the address was cached before.
    Blocked { command: CommandView, renewed: bool },
}

/// The verdict on `payload` for a cache that holds `map`.
pub open spec fn verdict(map: Map<Seq<char>, u64>, payload: Seq<u8>) -> Verdict {
    match decoded(payload) {
        Some(address) => Verdict::Blocked {
            command: CommandView::AddRule { address },
            renewed: map.contains_key(address),
        },
        None => Verdict::Rejected,
    }
}

/// The cache's mapping after `payload` was received at `now`.
pub open spec fn after_ingest(map: Map<Seq<char>, u64>, payload: Seq<u8>, now: u64) -> Map<
    Seq<char>,
    u64,
> {
    match decoded(payload) {
        Some(address) => map.insert(address, now),
        None => map,
    }
}

/// The cache's order after `payload` was received.
pub open spec fn order_after_ingest(
    map: Map<Seq<char>, u64>,
    order: Seq<Seq<char>>,
    payload: Seq<u8>,
) -> Seq<Seq<char>> {
    match decoded(payload) {
        Some(address) => if map.contains_key(address) {
            order
        } else {
            order.push(address)
        },
        None => order,
    }
}

/// The outcome of one received payload.
#[derive(Clone, Debug, PartialEq, Eq)]
pub enum Ingest {
    /// The payload is not text: it was dropped.
    Rejected,
    /// The address is cached as seen now. `command` installs its drop rule
    /// and is due in any case; `renewed` tells whether the address was
    /// cached before.
    Blocked { command: FirewallCommand, renewed: bool },
}

impl View for Ingest {
    type V = Verdict;

    open spec fn view(&self) -> Verdict {
        match self {
            Ingest::Rejected => Verdict::Rejected,
            Ingest::Blocked { command, renewed } => Verdict::Blocked {
                command: command@,
                renewed: *renewed,
            },
        }
    }
}

/// Cuts a datagram down to what a receive buffer of `capacity` bytes holds.
pub fn clip(datagram: &[u8], capacity: usize) -> (payload: &[u8])
    ensures
        payload@ == clipped(datagram@, capacity),
{
    if datagram.len() <= capacity {
        datagram
    } else {
        slice_subrange(datagram, 0, capacity)
    }
}

/// Reads the address in a payload.
pub fn decode(payload: &[u8]) -> (address: Option<String>)
    ensures
        opt_text(address) == decoded(payload@),
{
    match core::str::from_utf8(payload) {
        Ok(text) => {
            proof {
                encode_utf8_decode_utf8(text@);
            }
            Some(text.to_owned())
        },
        Err(_) => None,
    }
}

/// Handles one payload received at `now`: a readable one enters or renews
/// its address in the cache and asks for a drop rule, an unreadable one is
/// dropped.
pub fn ingest(cache: &mut BlockCache, payload: &[u8], now: u64) -> (outcome: Ingest)
    requires
        old(cache).wf(),
    ensures
        final(cache).wf(),
        outcome@ == verdict(old(cache)@, payload@),
        final(cache)@ == after_ingest(old(cache)@, payload@, now),
        final(cache).order() == order_after_ingest(old(cache)@, old(cache).order(), payload@),
{
    match decode(payload) {
        Some(address) => {
            let previous = cache.insert_or_renew(address.as_str(), now);
            Ingest::Blocked { command: FirewallCommand::AddRule { address }, renewed: previous.is_some() }
        },
        None => Ingest::Rejected,
    }
}

} // verus!
