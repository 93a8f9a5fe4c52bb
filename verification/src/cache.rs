//! The block cache: which addresses are meant to be blocked, and since when.

use vstd::prelude::*;
use crate::order::{lemma_push_contains, lemma_without_absent, lemma_without_one, without};
use crate::text::{same_text, texts};

verus! {

/// Whether an entry last confirmed at `last_seen` has outlived `ttl` at time
/// `now`. An entry stamped later than `now` has not.
pub open spec fn is_expired(last_seen: u64, now: u64, ttl: u64) -> bool {
    now - last_seen > ttl
}

/// How long ago `last_seen` lies at time `now`; zero when it lies ahead.
pub open spec fn age_at(last_seen: u64, now: u64) -> u64 {
    if now >= last_seen {
        (now - last_seen) as u64
    } else {
        0
    }
}

/// The addresses of `order` whose entries in `map` have expired, in order.
pub open spec fn expired_in(
    map: Map<Seq<char>, u64>,
    order: Seq<Seq<char>>,
    now: u64,
    ttl: u64,
) -> Seq<Seq<char>> {
    order.filter(|a: Seq<char>| is_expired(map[a], now, ttl))
}

/// Computes `age_at`.
pub fn age(last_seen: u64, now: u64) -> (elapsed: u64)
    ensures
        elapsed == age_at(last_seen, now),
{
    if now >= last_seen {
        now - last_seen
    } else {
        0
    }
}

/// Decides `is_expired`.
pub fn has_expired(last_seen: u64, now: u64, ttl: u64) -> (expired: bool)
    ensures
        expired == is_expired(last_seen, now, ttl),
{
    now >= last_seen && now - last_seen > ttl
}

/// The value stored under `address`, if there is one.
pub open spec fn lookup(map: Map<Seq<char>, u64>, address: Seq<char>) -> Option<u64> {
    if map.contains_key(address) {
        Some(map[address])
    } else {
        None
    }
}

/// Whether `order` lists the keys of `map`, each of them once.
pub open spec fn consistent(map: Map<Seq<char>, u64>, order: Seq<Seq<char>>) -> bool {
    &&& order.no_duplicates()
    &&& forall|a: Seq<char>|
        #![trigger map.contains_key(a)]
        #![trigger order.contains(a)]
        map.contains_key(a) <==> order.contains(a)
}

#[derive(Clone, Debug)]
struct BlockEntry {
    address: String,
    last_seen: u64,
}

/// The registry of blocked addresses, each with the time it was last seen.
///
/// Its view is the mapping from address to that time. Entries also have an
/// order, that of their first insertion, which decides which entries leave
/// first when a sweep is capped.
#[derive(Clone, Debug)]
pub struct BlockCache {
    entries: Vec<BlockEntry>,
}

spec fn keys(entries: Seq<BlockEntry>) -> Seq<Seq<char>> {
    entries.map_values(|e: BlockEntry| e.address@)
}

/// In a list without repeated addresses, an address is found where it stands.
proof fn lemma_slot(entries: Seq<BlockEntry>, i: int)
    requires
        keys(entries).no_duplicates(),
        0 <= i < entries.len(),
    ensures
        keys(entries).index_of(entries[i].address@) == i,
{
    assert(keys(entries)[i] == entries[i].address@);
}

impl View for BlockCache {
    type V = Map<Seq<char>, u64>;

    closed spec fn view(&self) -> Map<Seq<char>, u64> {
        Map::new(
            |a: Seq<char>| keys(self.entries@).contains(a),
            |a: Seq<char>| self.entries@[keys(self.entries@).index_of(a)].last_seen,
        )
    }
}

impl BlockCache {
    /// The cached addresses, in order of first insertion.
    pub closed spec fn order(&self) -> Seq<Seq<char>> {
        keys(self.entries@)
    }

    /// Every address is held once, and the order lists exactly the keys of the view.
    pub open spec fn wf(&self) -> bool {
        consistent(self@, self.order())
    }

    /// An empty cache.
    pub fn new() -> (cache: BlockCache)
        ensures
            cache.wf(),
            cache@ == Map::<Seq<char>, u64>::empty(),
            cache.order() == Seq::<Seq<char>>::empty(),
    {
        let cache = BlockCache { entries: Vec::new() };
        assert(cache@ =~= Map::<Seq<char>, u64>::empty());
        assert(cache.order() =~= Seq::<Seq<char>>::empty());
        cache
    }

    /// The number of cached addresses.
    pub fn len(&self) -> (n: usize)
        requires
            self.wf(),
        ensures
            n == self@.len(),
            n == self.order().len(),
    {
        proof {
            assert(self@.dom() =~= self.order().to_set());
            self.order().unique_seq_to_set();
        }
        self.entries.len()
    }

    /// Whether no address is cached.
    pub fn is_empty(&self) -> (empty: bool)
        requires
            self.wf(),
        ensures
            empty == (self@.len() == 0),
            empty == (self.order().len() == 0),
    {
        self.len() == 0
    }

    /// Whether `address` is cached.
    pub fn contains(&self, address: &str) -> (cached: bool)
        requires
            self.wf(),
        ensures
            cached == self@.contains_key(address@),
    {
        self.get(address).is_some()
    }

    /// The cached addresses, in cache order.
    pub fn addresses(&self) -> (list: Vec<String>)
        ensures
            texts(list@) == self.order(),
    {
        let mut list: Vec<String> = Vec::new();
        let mut i: usize = 0;
        while i < self.entries.len()
            invariant
                i <= self.entries.len(),
                texts(list@) == keys(self.entries@).take(i as int),
            decreases self.entries.len() - i,
        {
            let ghost before = list@;
            list.push(self.entries[i].address.clone());
            assert(texts(list@) =~= texts(before).push(self.entries[i as int].address@));
            assert(keys(self.entries@).take(i + 1) =~= keys(self.entries@).take(i as int).push(
                self.entries[i as int].address@,
            ));
            i += 1;
        }
        assert(keys(self.entries@).take(i as int) =~= keys(self.entries@));
        list
    }

    fn find(&self, address: &str) -> (slot: Option<usize>)
        ensures
            match slot {
                Some(i) => i < self.entries.len() && self.entries[i as int].address@ == address@,
                None => !self.order().contains(address@),
            },
    {
        let mut i: usize = 0;
        while i < self.entries.len()
            invariant
                i <= self.entries.len(),
                forall|j: int| 0 <= j < i ==> self.entries[j].address@ != address@,
            decreases self.entries.len() - i,
        {
            if same_text(self.entries[i].address.as_str(), address) {
                return Some(i);
            }
            i += 1;
        }
        None
    }

    /// The time `address` was last seen, if it is cached.
    pub fn get(&self, address: &str) -> (seen: Option<u64>)
        requires
            self.wf(),
        ensures
            seen == lookup(self@, address@),
    {
        match self.find(address) {
            Some(i) => {
                assert(keys(self.entries@)[i as int] == address@);
                Some(self.entries[i].last_seen)
            },
            None => None,
        }
    }

    /// Records that `address` was seen at `now`: a new address joins the end
    /// of the order, a cached one keeps its place and takes the new time.
    /// Returns the time it was seen before, if it was cached.
    pub fn insert_or_renew(&mut self, address: &str, now: u64) -> (previous: Option<u64>)
        requires
            old(self).wf(),
        ensures
            final(self).wf(),
            final(self)@ == old(self)@.insert(address@, now),
            final(self).order() == if old(self)@.contains_key(address@) {
                old(self).order()
            } else {
                old(self).order().push(address@)
            },
            previous == lookup(old(self)@, address@),
    {
        match self.find(address) {
            Some(i) => {
                let previous = self.entries[i].last_seen;
                self.entries[i].last_seen = now;
                proof {
                    assert(keys(self.entries@) =~= keys(old(self).entries@));
                    assert(keys(self.entries@)[i as int] == address@);
                    assert(self@ =~= old(self)@.insert(address@, now));
                }
                Some(previous)
            },
            None => {
                self.entries.push(BlockEntry { address: address.to_owned(), last_seen: now });
                proof {
                    let before = old(self).entries@;
                    let after = self.entries@;
                    assert(keys(after) =~= keys(before).push(address@));
                    assert forall|a: Seq<char>| #[trigger] keys(after).contains(a) implies self@[a]
                        == old(self)@.insert(address@, now)[a] by {
                        let j = keys(after).index_of(a);
                        lemma_slot(after, j);
                        if j < before.len() {
                            lemma_slot(before, j);
                        }
                    }
                    lemma_push_contains(keys(before), address@);
                    assert(self@.dom() =~= old(self)@.insert(address@, now).dom());
                    assert(self@ =~= old(self)@.insert(address@, now));
                }
                None
            },
        }
    }

    /// Forgets `address`. Returns the time it was last seen, if it was cached.
    pub fn remove(&mut self, address: &str) -> (previous: Option<u64>)
        requires
            old(self).wf(),
        ensures
            final(self).wf(),
            final(self)@ == old(self)@.remove(address@),
            final(self).order() == without(old(self).order(), set![address@]),
            previous == lookup(old(self)@, address@),
    {
        match self.find(address) {
            Some(i) => {
                let entry = self.entries.remove(i);
                proof {
                    let before = old(self).entries@;
                    let after = self.entries@;
                    lemma_slot(before, i as int);
                    lemma_without_one(keys(before), i as int);
                    assert(keys(after) =~= keys(before).remove(i as int));
                    assert forall|a: Seq<char>| keys(after).contains(a) <==> (a != address@
                        && keys(before).contains(a)) by {
                        if keys(after).contains(a) {
                            let j = keys(after).index_of(a);
                            if j < i {
                                assert(keys(before)[j] == a);
                            } else {
                                assert(keys(before)[j + 1] == a);
                            }
                        }
                        if a != address@ && keys(before).contains(a) {
                            let j = keys(before).index_of(a);
                            if j < i {
                                assert(keys(after)[j] == a);
                            } else {
                                assert(keys(after)[j - 1] == a);
                            }
                        }
                    }
                    assert forall|a: Seq<char>| #[trigger] keys(after).contains(a) implies self@[a]
                        == old(self)@[a] by {
                        let j = keys(after).index_of(a);
                        lemma_slot(after, j);
                        if j < i {
                            lemma_slot(before, j);
                        } else {
                            lemma_slot(before, j + 1);
                        }
                    }
                    assert(self@.dom() =~= old(self)@.remove(address@).dom());
                    assert(self@ =~= old(self)@.remove(address@));
                }
                Some(entry.last_seen)
            },
            None => {
                proof {
                    lemma_without_absent(self.order(), address@);
                    assert(self@ =~= old(self)@.remove(address@));
                }
                None
            },
        }
    }

    /// The addresses whose entries have outlived `ttl` at `now`, in cache order.
    pub fn expired(&self, now: u64, ttl: u64) -> (due: Vec<String>)
        requires
            self.wf(),
        ensures
            texts(due@) == expired_in(self@, self.order(), now, ttl),
    {
        let mut due: Vec<String> = Vec::new();
        let mut i: usize = 0;
        assert(keys(self.entries@.take(0)) =~= Seq::<Seq<char>>::empty());
        assert(texts(due@) =~= expired_in(self@, keys(self.entries@.take(0)), now, ttl)) by {
            reveal(Seq::filter);
        }
        while i < self.entries.len()
            invariant
                self.wf(),
                i <= self.entries.len(),
                texts(due@) == expired_in(self@, keys(self.entries@.take(i as int)), now, ttl),
            decreases self.entries.len() - i,
        {
            let entry = &self.entries[i];
            proof {
                let seen = keys(self.entries@.take(i as int));
                lemma_slot(self.entries@, i as int);
                assert(keys(self.entries@.take(i + 1)) =~= seen.push(entry.address@));
                seen.lemma_filter_push(
                    entry.address@,
                    |a: Seq<char>| is_expired(self@[a], now, ttl),
                );
                assert(keys(self.entries@)[i as int] == entry.address@);
                assert(self@[entry.address@] == entry.last_seen);
            }
            if has_expired(entry.last_seen, now, ttl) {
                let ghost before = due@;
                due.push(entry.address.clone());
                assert(texts(due@) =~= texts(before).push(entry.address@));
            }
            i += 1;
        }
        assert(self.entries@.take(i as int) =~= self.entries@);
        due
    }
}

} // verus!
