//! Start-up: the cache is rebuilt from the rules the packet filter holds.
//!
//! Nothing is kept across restarts. Every address the table blocks counts as
//! seen at the moment of the start, however long its rule has existed.

use vstd::prelude::*;
use crate::cache::BlockCache;
use crate::listing::{listed_addresses, parse_rules};
use crate::order::lemma_push_contains;
use crate::text::texts;

verus! {

/// The mapping that holds exactly the given addresses, each seen at `now`.
pub open spec fn stamped(addresses: Seq<Seq<char>>, now: u64) -> Map<Seq<char>, u64> {
    Map::new(|a: Seq<char>| addresses.contains(a), |a: Seq<char>| now)
}

/// The given addresses without repeats, each where it first occurs.
pub open spec fn first_occurrences(addresses: Seq<Seq<char>>) -> Seq<Seq<char>>
    decreases addresses.len(),
{
    if addresses.len() == 0 {
        Seq::empty()
    } else {
        let before = first_occurrences(addresses.drop_last());
        if before.contains(addresses.last()) {
            before
        } else {
            before.push(addresses.last())
        }
    }
}

/// A cache that holds the given addresses, each seen at `now`.
pub fn seed(addresses: &Vec<String>, now: u64) -> (cache: BlockCache)
    ensures
        cache.wf(),
        cache@ == stamped(texts(addresses@), now),
        cache.order() == first_occurrences(texts(addresses@)),
{
    let mut cache = BlockCache::new();
    let mut i: usize = 0;
    assert(texts(addresses@).take(0) =~= Seq::<Seq<char>>::empty());
    assert(cache@ =~= stamped(texts(addresses@).take(0), now));
    while i < addresses.len()
        invariant
            i <= addresses.len(),
            cache.wf(),
            cache@ == stamped(texts(addresses@).take(i as int), now),
            cache.order() == first_occurrences(texts(addresses@).take(i as int)),
        decreases addresses.len() - i,
    {
        let ghost seen = texts(addresses@).take(i as int);
        let ghost next = texts(addresses@).take(i + 1);
        let ghost a = addresses@[i as int]@;
        cache.insert_or_renew(addresses[i].as_str(), now);
        proof {
            assert(next =~= seen.push(a));
            assert(next.drop_last() =~= seen);
            lemma_push_contains(seen, a);
            assert(cache@ =~= stamped(next, now));
        }
        i += 1;
    }
    assert(texts(addresses@).take(i as int) =~= texts(addresses@));
    cache
}

/// The cache at start-up, from the plain listing of the table read at `now`:
/// it holds the address of every row that lists a drop rule, once, as seen
/// at `now`.
pub fn bootstrap(listing: &str, now: u64) -> (cache: BlockCache)
    ensures
        cache.wf(),
        cache@ == stamped(listed_addresses(listing@), now),
        cache.order() == first_occurrences(listed_addresses(listing@)),
{
    let addresses = parse_rules(listing);
    seed(&addresses, now)
}

/// The cache at start-up after an attempt to list the rules at `now`: what
/// `printed` lists if the attempt succeeded, and an empty cache if it
/// failed, whatever was printed.
pub fn from_outcome(succeeded: bool, printed: &str, now: u64) -> (cache: BlockCache)
    ensures
        cache.wf(),
        cache@ == if succeeded {
            stamped(listed_addresses(printed@), now)
        } else {
            Map::<Seq<char>, u64>::empty()
        },
        cache.order() == if succeeded {
            first_occurrences(listed_addresses(printed@))
        } else {
            Seq::<Seq<char>>::empty()
        },
{
    if succeeded {
        bootstrap(printed, now)
    } else {
        BlockCache::new()
    }
}

} // verus!
