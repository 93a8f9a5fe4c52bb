//! What holds of the blocklist across its operations.
//!
//! The statements speak of the models the operations are specified with:
//! the cache as a mapping from address to last sighting together with its
//! order, a payload as bytes, a sweep by its victims and reports.

use vstd::prelude::*;
use vstd::utf8::{encode_utf8, encode_utf8_decode_utf8, encode_utf8_valid_utf8};
use crate::bootstrap::{first_occurrences, stamped};
use crate::cache::{age_at, consistent, expired_in, is_expired};
use crate::order::{lemma_filter_keeps, lemma_push_contains, without};
use crate::command::CommandView;
use crate::handles::{handle_of, last_wins};
use crate::ingest::{after_ingest, order_after_ingest, verdict, Verdict};
use crate::listing::{
    fields, handle_row, listed_addresses, listed_handles, rows, rule_address, rule_handle, rule_row,
};
use crate::sweep::{release, removals, victims, Removal};

verus! {

/// A cache holds as many addresses as its order lists, and finitely many.
pub proof fn cache_is_finite(map: Map<Seq<char>, u64>, order: Seq<Seq<char>>)
    requires
        consistent(map, order),
    ensures
        map.dom().finite(),
        map.len() == order.len(),
{
    assert(map.dom() =~= order.to_set());
    vstd::seq_lib::seq_to_set_is_finite(order);
    order.unique_seq_to_set();
}

/// The payload that spells `address` is read back as `address`.
pub proof fn payload_names_its_address(address: Seq<char>)
    ensures
        crate::ingest::decoded(encode_utf8(address)) == Some(address),
{
    encode_utf8_valid_utf8(address);
    encode_utf8_decode_utf8(address);
}

/// One message for an address that is not cached asks for exactly one drop
/// rule, for that address, and adds exactly one entry to the cache, for that
/// address and of age zero; every other entry stays as it was.
pub proof fn new_address_is_blocked(
    map: Map<Seq<char>, u64>,
    order: Seq<Seq<char>>,
    address: Seq<char>,
    now: u64,
)
    requires
        consistent(map, order),
        !map.contains_key(address),
    ensures
        verdict(map, encode_utf8(address)) == (Verdict::Blocked {
            command: CommandView::AddRule { address },
            renewed: false,
        }),
        after_ingest(map, encode_utf8(address), now) == map.insert(address, now),
        age_at(after_ingest(map, encode_utf8(address), now)[address], now) == 0,
        order_after_ingest(map, order, encode_utf8(address)) == order.push(address),
        after_ingest(map, encode_utf8(address), now).len() == map.len() + 1,
        consistent(
            after_ingest(map, encode_utf8(address), now),
            order_after_ingest(map, order, encode_utf8(address)),
        ),
{
    payload_names_its_address(address);
    cache_is_finite(map, order);
    lemma_push_contains(order, address);
    cache_is_finite(map.insert(address, now), order.push(address));
}

/// One more message for a cached address, expired or not, asks for one more
/// drop rule for it and for nothing else, so no rule is taken away; it sets
/// the entry's age back to zero and leaves every other entry, and the number
/// of entries, as they were.
pub proof fn cached_address_is_renewed(
    map: Map<Seq<char>, u64>,
    order: Seq<Seq<char>>,
    address: Seq<char>,
    now: u64,
)
    requires
        consistent(map, order),
        map.contains_key(address),
    ensures
        verdict(map, encode_utf8(address)) == (Verdict::Blocked {
            command: CommandView::AddRule { address },
            renewed: true,
        }),
        after_ingest(map, encode_utf8(address), now) == map.insert(address, now),
        age_at(after_ingest(map, encode_utf8(address), now)[address], now) == 0,
        order_after_ingest(map, order, encode_utf8(address)) == order,
        after_ingest(map, encode_utf8(address), now).len() == map.len(),
        consistent(
            after_ingest(map, encode_utf8(address), now),
            order_after_ingest(map, order, encode_utf8(address)),
        ),
{
    payload_names_its_address(address);
    cache_is_finite(map, order);
    cache_is_finite(map.insert(address, now), order);
}

/// A sweep revokes only entries that are cached and have expired, and none twice.
pub proof fn sweep_takes_only_expired(
    map: Map<Seq<char>, u64>,
    order: Seq<Seq<char>>,
    now: u64,
    ttl: u64,
    cap: usize,
)
    requires
        consistent(map, order),
    ensures
        victims(map, order, now, ttl, cap).no_duplicates(),
        forall|a: Seq<char>| #[trigger]
            victims(map, order, now, ttl, cap).contains(a) ==> map.contains_key(a) && is_expired(
                map[a],
                now,
                ttl,
            ),
{
    let pred = |a: Seq<char>| is_expired(map[a], now, ttl);
    let due = order.filter(pred);
    let gone = victims(map, order, now, ttl, cap);
    lemma_filter_keeps(order, pred);
    assert forall|a: Seq<char>| #[trigger] gone.contains(a) implies due.contains(a) by {
        let j = gone.index_of(a);
        assert(due[j] == a);
    }
}

/// An entry that has not expired outlasts the sweep unchanged.
pub proof fn sweep_spares_fresh(
    map: Map<Seq<char>, u64>,
    order: Seq<Seq<char>>,
    now: u64,
    ttl: u64,
    cap: usize,
    address: Seq<char>,
)
    requires
        consistent(map, order),
        map.contains_key(address),
        !is_expired(map[address], now, ttl),
    ensures
        map.remove_keys(victims(map, order, now, ttl, cap).to_set()).contains_key(address),
        map.remove_keys(victims(map, order, now, ttl, cap).to_set())[address] == map[address],
{
    sweep_takes_only_expired(map, order, now, ttl, cap);
}

/// Where no more entries have expired than the cap admits, one sweep leaves
/// none of them in the cache, and reports each with the handle the table
/// lists for it, so that the rule of every expired entry with a handle that
/// is not empty is deleted.
pub proof fn sweep_clears_expired(
    map: Map<Seq<char>, u64>,
    order: Seq<Seq<char>>,
    handles: Map<Seq<char>, Seq<char>>,
    now: u64,
    ttl: u64,
    cap: usize,
    address: Seq<char>,
)
    requires
        consistent(map, order),
        expired_in(map, order, now, ttl).len() <= cap,
        map.contains_key(address),
        is_expired(map[address], now, ttl),
    ensures
        !map.remove_keys(victims(map, order, now, ttl, cap).to_set()).contains_key(address),
        exists|i: int|
            0 <= i < victims(map, order, now, ttl, cap).len() && #[trigger] removals(
                map,
                handles,
                victims(map, order, now, ttl, cap),
            )[i] == (Removal {
                address,
                last_seen: map[address],
                handle: handle_of(handles, address),
            }),
        handles.contains_key(address) && handles[address].len() > 0 ==> exists|i: int|
            0 <= i < victims(map, order, now, ttl, cap).len() && release(
                #[trigger] removals(map, handles, victims(map, order, now, ttl, cap))[i],
            ) == Some(CommandView::DeleteRule { handle: handles[address] }),
{
    let pred = |a: Seq<char>| is_expired(map[a], now, ttl);
    let gone = victims(map, order, now, ttl, cap);
    assert(gone == order.filter(pred));
    let at = order.index_of(address);
    order.lemma_filter_contains(pred, at);
    let i = gone.index_of(address);
    let report = removals(map, handles, gone)[i];
    assert(report == Removal {
        address,
        last_seen: map[address],
        handle: handle_of(handles, address),
    });
}

/// A sweep never revokes more entries than the cap admits: its victims are
/// at most `cap`, and the cache shrinks by exactly their number.
pub proof fn sweep_keeps_to_cap(
    map: Map<Seq<char>, u64>,
    order: Seq<Seq<char>>,
    now: u64,
    ttl: u64,
    cap: usize,
)
    requires
        consistent(map, order),
    ensures
        victims(map, order, now, ttl, cap).len() <= cap,
        map.remove_keys(victims(map, order, now, ttl, cap).to_set()).len() + victims(
            map,
            order,
            now,
            ttl,
            cap,
        ).len() == map.len(),
        consistent(
            map.remove_keys(victims(map, order, now, ttl, cap).to_set()),
            without(order, victims(map, order, now, ttl, cap).to_set()),
        ),
{
    let gone = victims(map, order, now, ttl, cap);
    let left = map.remove_keys(gone.to_set());
    let stay = |a: Seq<char>| !gone.to_set().contains(a);
    sweep_takes_only_expired(map, order, now, ttl, cap);
    cache_is_finite(map, order);
    gone.unique_seq_to_set();
    vstd::seq_lib::seq_to_set_is_finite(gone);
    vstd::set_lib::lemma_set_difference_len(map.dom(), gone.to_set());
    assert(map.dom().intersect(gone.to_set()) =~= gone.to_set());
    assert(left.dom() =~= map.dom().difference(gone.to_set()));
    lemma_filter_keeps(order, stay);
    assert forall|a: Seq<char>|
        #![trigger left.contains_key(a)]
        #![trigger without(order, gone.to_set()).contains(a)]
        left.contains_key(a) <==> without(order, gone.to_set()).contains(a) by {
        if left.contains_key(a) {
            let at = order.index_of(a);
            order.lemma_filter_contains(stay, at);
        }
    }
}

/// After start-up the cache holds exactly the addresses the table blocks,
/// each once and each of age zero, however long its rule has existed.
pub proof fn bootstrap_mirrors_table(listing: Seq<char>, now: u64)
    ensures
        stamped(listed_addresses(listing), now).dom() == listed_addresses(listing).to_set(),
        forall|a: Seq<char>| #[trigger]
            stamped(listed_addresses(listing), now).contains_key(a) ==> age_at(
                stamped(listed_addresses(listing), now)[a],
                now,
            ) == 0,
        consistent(
            stamped(listed_addresses(listing), now),
            first_occurrences(listed_addresses(listing)),
        ),
{
    let listed = listed_addresses(listing);
    assert(stamped(listed, now).dom() =~= listed.to_set());
    first_occurrences_are_distinct(listed);
}

/// The first occurrences of a list hold what the list holds, each once.
pub proof fn first_occurrences_are_distinct(addresses: Seq<Seq<char>>)
    ensures
        first_occurrences(addresses).no_duplicates(),
        forall|a: Seq<char>|
            #![trigger first_occurrences(addresses).contains(a)]
            #![trigger addresses.contains(a)]
            first_occurrences(addresses).contains(a) <==> addresses.contains(a),
    decreases addresses.len(),
{
    if addresses.len() > 0 {
        let front = addresses.drop_last();
        let last = addresses.last();
        let before = first_occurrences(front);
        let all = first_occurrences(addresses);
        first_occurrences_are_distinct(front);
        assert(front.push(last) =~= addresses);
        lemma_push_contains(front, last);
        lemma_push_contains(before, last);
    }
}

/// The cache's mapping after one message for each of `addresses` was
/// received, the message for `addresses[i]` at `times[i]`, in this order.
pub open spec fn after_messages(
    map: Map<Seq<char>, u64>,
    addresses: Seq<Seq<char>>,
    times: Seq<u64>,
) -> Map<Seq<char>, u64>
    decreases addresses.len(),
{
    if addresses.len() == 0 {
        map
    } else {
        after_ingest(
            after_messages(map, addresses.drop_last(), times.drop_last()),
            encode_utf8(addresses.last()),
            times.last(),
        )
    }
}

/// Messages for two different addresses can be handled in either order: the
/// cache ends up the same.
pub proof fn messages_commute(
    map: Map<Seq<char>, u64>,
    first: Seq<char>,
    first_time: u64,
    second: Seq<char>,
    second_time: u64,
)
    requires
        first != second,
    ensures
        after_ingest(
            after_ingest(map, encode_utf8(first), first_time),
            encode_utf8(second),
            second_time,
        ) == after_ingest(
            after_ingest(map, encode_utf8(second), second_time),
            encode_utf8(first),
            first_time,
        ),
{
    payload_names_its_address(first);
    payload_names_its_address(second);
    assert(map.insert(first, first_time).insert(second, second_time) =~= map.insert(
        second,
        second_time,
    ).insert(first, first_time));
}

/// Messages for pairwise different addresses all land, whatever the cache
/// held and whenever each is handled: each asks for one drop rule for its
/// own address, each address ends up cached with the time of its own
/// message, and no other entry changes. If none of the addresses was cached
/// before, the cache grows by exactly the number of messages.
pub proof fn distinct_messages_all_land(
    map: Map<Seq<char>, u64>,
    addresses: Seq<Seq<char>>,
    times: Seq<u64>,
)
    requires
        addresses.no_duplicates(),
        addresses.len() == times.len(),
        map.dom().finite(),
    ensures
        forall|state: Map<Seq<char>, u64>, i: int|
            0 <= i < addresses.len() ==> #[trigger] verdict(state, encode_utf8(addresses[i]))
                == (Verdict::Blocked {
                command: CommandView::AddRule { address: addresses[i] },
                renewed: state.contains_key(addresses[i]),
            }),
        forall|i: int|
            0 <= i < addresses.len() ==> after_messages(map, addresses, times).contains_key(
                #[trigger] addresses[i],
            ) && after_messages(map, addresses, times)[addresses[i]] == times[i],
        forall|a: Seq<char>|
            !addresses.contains(a) ==> (#[trigger] after_messages(
                map,
                addresses,
                times,
            ).contains_key(a) <==> map.contains_key(a)),
        forall|a: Seq<char>|
            !addresses.contains(a) && map.contains_key(a) ==> #[trigger] after_messages(
                map,
                addresses,
                times,
            )[a] == map[a],
        after_messages(map, addresses, times).dom().finite(),
        (forall|i: int| 0 <= i < addresses.len() ==> !map.contains_key(#[trigger] addresses[i]))
            ==> after_messages(map, addresses, times).len() == map.len() + addresses.len(),
    decreases addresses.len(),
{
    assert forall|state: Map<Seq<char>, u64>, i: int| 0 <= i < addresses.len() implies #[trigger]
        verdict(state, encode_utf8(addresses[i])) == (Verdict::Blocked {
        command: CommandView::AddRule { address: addresses[i] },
        renewed: state.contains_key(addresses[i]),
    }) by {
        payload_names_its_address(addresses[i]);
    }
    if addresses.len() > 0 {
        let front = addresses.drop_last();
        let last = addresses.last();
        let before = after_messages(map, front, times.drop_last());
        let end = after_messages(map, addresses, times);
        distinct_messages_all_land(map, front, times.drop_last());
        payload_names_its_address(last);
        assert(end == before.insert(last, times.last()));
        assert(front.push(last) =~= addresses);
        lemma_push_contains(front, last);
        assert(!front.contains(last)) by {
            if front.contains(last) {
                let j = front.index_of(last);
                assert(addresses[j] == last);
            }
        }
        assert forall|i: int| 0 <= i < addresses.len() implies end.contains_key(
            #[trigger] addresses[i],
        ) && end[addresses[i]] == times[i] by {
            if i < front.len() {
                assert(front[i] == addresses[i]);
                assert(times.drop_last()[i] == times[i]);
            }
        }
        if forall|i: int| 0 <= i < addresses.len() ==> !map.contains_key(#[trigger] addresses[i]) {
            assert forall|i: int| 0 <= i < front.len() implies !map.contains_key(
                #[trigger] front[i],
            ) by {
                assert(front[i] == addresses[i]);
            }
            assert(!before.contains_key(last));
        }
    }
}

/// Whether `row` lists the drop rule for `address`.
pub open spec fn blocks(row: Seq<char>, address: Seq<char>) -> bool {
    fields(row) == rule_row(address)
}

/// Whether `row` lists the drop rule for `address` with a handle, which is
/// then its seventh field.
pub open spec fn releases(row: Seq<char>, address: Seq<char>) -> bool {
    fields(row) == handle_row(address, fields(row)[6])
}

/// The addresses read from some rows are those whose drop rule one of the
/// rows lists.
proof fn lemma_addresses_of_rows(lines: Seq<Seq<char>>, address: Seq<char>)
    ensures
        lines.filter_map(|row: Seq<char>| rule_address(row)).contains(address) <==> exists|i: int|
            0 <= i < lines.len() && blocks(#[trigger] lines[i], address),
    decreases lines.len(),
{
    let read = |row: Seq<char>| rule_address(row);
    if lines.len() > 0 {
        let front = lines.drop_last();
        let last = lines.last();
        lemma_addresses_of_rows(front, address);
        let found = front.filter_map(read);
        match read(last) {
            Some(a) => {
                assert(found + seq![a] =~= found.push(a));
                lemma_push_contains(found, a);
            },
            None => {},
        }
        if exists|i: int| 0 <= i < lines.len() && blocks(#[trigger] lines[i], address) {
            let i = choose|i: int| 0 <= i < lines.len() && blocks(#[trigger] lines[i], address);
            if i < front.len() {
                assert(blocks(front[i], address));
            }
        }
        if exists|i: int| 0 <= i < front.len() && blocks(#[trigger] front[i], address) {
            let i = choose|i: int| 0 <= i < front.len() && blocks(#[trigger] front[i], address);
            assert(blocks(lines[i], address));
        }
        if blocks(last, address) {
            assert(blocks(lines[lines.len() - 1], address));
        }
    }
}

/// The handles read from some rows: an address has one exactly if a row
/// lists its rule with a handle, and it is the handle of the last such row.
proof fn lemma_handles_of_rows(lines: Seq<Seq<char>>, address: Seq<char>)
    ensures
        last_wins(lines.filter_map(|row: Seq<char>| rule_handle(row))).contains_key(address)
            <==> exists|i: int| 0 <= i < lines.len() && releases(#[trigger] lines[i], address),
        forall|i: int|
            0 <= i < lines.len() && releases(#[trigger] lines[i], address) && (forall|j: int|
                i < j < lines.len() ==> !releases(#[trigger] lines[j], address)) ==> last_wins(
                lines.filter_map(|row: Seq<char>| rule_handle(row)),
            )[address] == fields(lines[i])[6],
    decreases lines.len(),
{
    let read = |row: Seq<char>| rule_handle(row);
    if lines.len() > 0 {
        let front = lines.drop_last();
        let last = lines.last();
        lemma_handles_of_rows(front, address);
        let found = front.filter_map(read);
        let table = last_wins(lines.filter_map(read));
        match read(last) {
            Some(entry) => {
                assert((found + seq![entry]).drop_last() =~= found);
                assert(table == last_wins(found).insert(entry.0, entry.1));
            },
            None => {},
        }
        if exists|i: int| 0 <= i < lines.len() && releases(#[trigger] lines[i], address) {
            let i = choose|i: int| 0 <= i < lines.len() && releases(#[trigger] lines[i], address);
            if i < front.len() {
                assert(releases(front[i], address));
            }
        }
        if exists|i: int| 0 <= i < front.len() && releases(#[trigger] front[i], address) {
            let i = choose|i: int| 0 <= i < front.len() && releases(#[trigger] front[i], address);
            assert(releases(lines[i], address));
        }
        if releases(last, address) {
            assert(releases(lines[lines.len() - 1], address));
        }
        assert forall|i: int|
            0 <= i < lines.len() && releases(#[trigger] lines[i], address) && (forall|j: int|
                i < j < lines.len() ==> !releases(#[trigger] lines[j], address)) implies table[address]
            == fields(lines[i])[6] by {
            if i < front.len() {
                assert(front[i] == lines[i]);
                assert(!releases(lines[lines.len() - 1], address));
                assert forall|j: int| i < j < front.len() implies !releases(
                    #[trigger] front[j],
                    address,
                ) by {
                    assert(front[j] == lines[j]);
                }
            }
        }
    }
}

/// The plain listing blocks an address exactly if one of its rows has the
/// fields of the drop rule for that address; a row of any other shape, be it
/// another match or another verdict, blocks nothing.
pub proof fn listing_blocks_rule_rows(text: Seq<char>, address: Seq<char>)
    ensures
        listed_addresses(text).contains(address) <==> exists|i: int|
            0 <= i < rows(text).len() && blocks(#[trigger] rows(text)[i], address),
{
    lemma_addresses_of_rows(rows(text), address);
}

/// The listing with handles gives an address a handle exactly if one of its
/// rows has the fields of the drop rule for that address with a handle.
pub proof fn table_holds_handle_rows(text: Seq<char>, address: Seq<char>)
    ensures
        last_wins(listed_handles(text)).contains_key(address) <==> exists|i: int|
            0 <= i < rows(text).len() && releases(#[trigger] rows(text)[i], address),
{
    lemma_handles_of_rows(rows(text), address);
}

/// The handle the table holds for an address is the one in the last row
/// that lists the rule for that address.
pub proof fn table_holds_last_handle(text: Seq<char>, address: Seq<char>, i: int)
    requires
        0 <= i < rows(text).len(),
        releases(rows(text)[i], address),
        forall|j: int| i < j < rows(text).len() ==> !releases(#[trigger] rows(text)[j], address),
    ensures
        last_wins(listed_handles(text)).contains_key(address),
        last_wins(listed_handles(text))[address] == fields(rows(text)[i])[6],
{
    lemma_handles_of_rows(rows(text), address);
}

} // verus!
