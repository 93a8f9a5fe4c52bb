//! The expiry sweep: which blocks a sweep revokes and what it leaves behind.

use vstd::prelude::*;
use crate::cache::{age, age_at, expired_in, is_expired, BlockCache};
use crate::order::{
    lemma_filter_keeps, lemma_push_contains, lemma_without_more, lemma_without_none, without,
};
use crate::command::{deletion, opt_command, CommandView, FirewallCommand};
use crate::config::NANOS_PER_MINUTE;
use crate::handles::{handle_of, HandleTable};
use crate::text::{opt_text, texts};

verus! {

/// The addresses one sweep revokes: the expired ones in cache order, and no
/// more than `cap` of them.
pub open spec fn victims(
    map: Map<Seq<char>, u64>,
    order: Seq<Seq<char>>,
    now: u64,
    ttl: u64,
    cap: usize,
) -> Seq<Seq<char>> {
    let due = expired_in(map, order, now, ttl);
    if due.len() <= cap {
        due
    } else {
        due.take(cap as int)
    }
}

/// What a sweep reports of one revoked block.
pub struct Removal {
    /// The address that is no longer cached.
    pub address: Seq<char>,
    /// When the address was last seen.
    pub last_seen: u64,
    /// The handle of the rule to delete, if the table listed one.
    pub handle: Option<Seq<char>>,
}

/// The reports for the addresses in `gone`, in order.
pub open spec fn removals(
    map: Map<Seq<char>, u64>,
    handles: Map<Seq<char>, Seq<char>>,
    gone: Seq<Seq<char>>,
) -> Seq<Removal> {
    Seq::new(
        gone.len(),
        |i: int|
            Removal {
                address: gone[i],
                last_seen: map[gone[i]],
                handle: handle_of(handles, gone[i]),
            },
    )
}

/// One block revoked by a sweep.
#[derive(Clone, Debug, PartialEq, Eq)]
pub struct Eviction {
    /// The address that is no longer cached.
    pub address: String,
    /// When the address was last seen.
    pub last_seen: u64,
    /// The handle of the rule to delete, if the table listed one.
    pub handle: Option<String>,
}

impl View for Eviction {
    type V = Removal;

    open spec fn view(&self) -> Removal {
        Removal {
            address: self.address@,
            last_seen: self.last_seen,
            handle: opt_text(self.handle),
        }
    }
}

/// The command that releases a revoked block in the packet filter: the
/// deletion of its rule, if a handle is known and not empty.
pub open spec fn release(removal: Removal) -> Option<CommandView> {
    match removal.handle {
        Some(handle) => deletion(handle),
        None => None,
    }
}

impl Eviction {
    /// The command that deletes the rule of this block; none if no handle
    /// is known for it.
    pub fn command(&self) -> (command: Option<FirewallCommand>)
        ensures
            opt_command(command) == release(self@),
    {
        match &self.handle {
            Some(handle) => FirewallCommand::delete_rule(handle.as_str()),
            None => None,
        }
    }

    /// The whole minutes between the last sighting of the address and `now`.
    pub fn minutes_blocked(&self, now: u64) -> (minutes: u64)
        ensures
            minutes == age_at(self.last_seen, now) / NANOS_PER_MINUTE,
    {
        age(self.last_seen, now) / NANOS_PER_MINUTE
    }
}

/// The views of a list of evictions, in order.
pub open spec fn reports(evictions: Seq<Eviction>) -> Seq<Removal> {
    evictions.map_values(|e: Eviction| e@)
}

/// Whether a sweep at `now` has anything to revoke. Only then is the table
/// asked for its handles, once for the whole sweep.
pub fn needs_handles(cache: &BlockCache, now: u64, ttl: u64) -> (due: bool)
    requires
        cache.wf(),
    ensures
        due == (expired_in(cache@, cache.order(), now, ttl).len() > 0),
{
    let expired = cache.expired(now, ttl);
    assert(texts(expired@).len() == expired@.len());
    expired.len() > 0
}

/// Revokes the blocks that have outlived `ttl` at `now`, at most `cap` of
/// them, oldest insertion first. Each leaves the cache whether or not
/// `handles` lists a handle for it; the report carries the handle if there
/// is one.
pub fn sweep(
    cache: &mut BlockCache,
    handles: &HandleTable,
    now: u64,
    ttl: u64,
    cap: usize,
) -> (evictions: Vec<Eviction>)
    requires
        old(cache).wf(),
    ensures
        final(cache).wf(),
        final(cache)@ == old(cache)@.remove_keys(
            victims(old(cache)@, old(cache).order(), now, ttl, cap).to_set(),
        ),
        final(cache).order() == without(
            old(cache).order(),
            victims(old(cache)@, old(cache).order(), now, ttl, cap).to_set(),
        ),
        reports(evictions@) == removals(
            old(cache)@,
            handles@,
            victims(old(cache)@, old(cache).order(), now, ttl, cap),
        ),
        evictions.len() <= cap,
{
    let due = cache.expired(now, ttl);
    let mut evictions: Vec<Eviction> = Vec::new();
    let mut i: usize = 0;
    proof {
        let pred = |a: Seq<char>| is_expired(cache@[a], now, ttl);
        lemma_filter_keeps(cache.order(), pred);
        assert(texts(due@) == cache.order().filter(pred));
        assert forall|a: Seq<char>| texts(due@).contains(a) implies cache@.contains_key(a) by {
            assert(cache.order().filter(pred).contains(a));
        }
        assert(texts(due@).take(0).to_set() =~= Set::<Seq<char>>::empty());
        assert(cache@ =~= cache@.remove_keys(Set::<Seq<char>>::empty()));
        lemma_without_none(cache.order());
    }
    while i < due.len() && i < cap
        invariant
            cache.wf(),
            old(cache).wf(),
            i <= due.len(),
            i <= cap,
            texts(due@) == expired_in(old(cache)@, old(cache).order(), now, ttl),
            texts(due@).no_duplicates(),
            forall|a: Seq<char>| texts(due@).contains(a) ==> old(cache)@.contains_key(a),
            cache@ == old(cache)@.remove_keys(texts(due@).take(i as int).to_set()),
            cache.order() == without(old(cache).order(), texts(due@).take(i as int).to_set()),
            reports(evictions@) == removals(old(cache)@, handles@, texts(due@).take(i as int)),
        decreases due.len() - i,
    {
        let ghost done = texts(due@).take(i as int);
        let ghost a = due@[i as int]@;
        let ghost before = evictions@;
        let ghost order_before = cache.order();
        proof {
            assert(texts(due@)[i as int] == a);
            assert(texts(due@).contains(a));
            assert(cache@.contains_key(a) && cache@[a] == old(cache)@[a]);
            assert(!done.to_set().contains(a)) by {
                if done.contains(a) {
                    let j = done.index_of(a);
                    assert(texts(due@)[j] == a);
                }
            }
            assert(texts(due@).take(i + 1) =~= done.push(a));
            assert(done.push(a).to_set() =~= done.to_set().insert(a)) by {
                lemma_push_contains(done, a);
            }
            lemma_without_more(old(cache).order(), done.to_set(), a);
        }
        let previous = cache.remove(due[i].as_str());
        let last_seen = match previous {
            Some(seen) => seen,
            None => now,
        };
        let handle = handles.get(due[i].as_str());
        evictions.push(Eviction { address: due[i].clone(), last_seen, handle });
        proof {
            assert(cache@ =~= old(cache)@.remove_keys(done.push(a).to_set()));
            assert(reports(evictions@) =~= reports(before).push(evictions@.last()@));
            assert(reports(evictions@) =~= removals(old(cache)@, handles@, done.push(a)));
        }
        i += 1;
    }
    proof {
        if due.len() <= cap {
            assert(texts(due@).take(i as int) =~= texts(due@));
        }
    }
    evictions
}

} // verus!
