//! The handles of the rules in the packet filter's table.
//!
//! A rule can only be deleted by the handle the packet filter gave it. The
//! table may hold several rules for one address; the lookup keeps one handle
//! for each address, that of the rule listed last.

use vstd::prelude::*;
use crate::listing::{listed_handles, parse_handle, rows, rule_handle, split_rows};
use crate::text::{opt_text, same_text, texts};

verus! {

/// The mapping that results from entering the pairs one after another, a
/// later pair replacing an earlier one for the same address.
pub open spec fn last_wins(pairs: Seq<(Seq<char>, Seq<char>)>) -> Map<Seq<char>, Seq<char>>
    decreases pairs.len(),
{
    if pairs.len() == 0 {
        Map::empty()
    } else {
        last_wins(pairs.drop_last()).insert(pairs.last().0, pairs.last().1)
    }
}

/// The handle stored under `address`, if there is one.
pub open spec fn handle_of(map: Map<Seq<char>, Seq<char>>, address: Seq<char>) -> Option<
    Seq<char>,
> {
    if map.contains_key(address) {
        Some(map[address])
    } else {
        None
    }
}

/// The handle by which each blocked address can be released.
///
/// Its view is the mapping from address to handle.
#[derive(Clone, Debug)]
pub struct HandleTable {
    entries: Vec<(String, String)>,
}

spec fn pairs(entries: Seq<(String, String)>) -> Seq<(Seq<char>, Seq<char>)> {
    entries.map_values(|e: (String, String)| (e.0@, e.1@))
}

/// An address that no pair names is not in the mapping.
proof fn lemma_absent(list: Seq<(Seq<char>, Seq<char>)>, address: Seq<char>)
    requires
        forall|j: int| 0 <= j < list.len() ==> list[j].0 != address,
    ensures
        !last_wins(list).contains_key(address),
    decreases list.len(),
{
    if list.len() > 0 {
        lemma_absent(list.drop_last(), address);
    }
}

/// The mapping holds for an address the handle of the last pair that names it.
proof fn lemma_last(list: Seq<(Seq<char>, Seq<char>)>, i: int)
    requires
        0 <= i < list.len(),
        forall|j: int| i < j < list.len() ==> list[j].0 != list[i].0,
    ensures
        last_wins(list).contains_key(list[i].0),
        last_wins(list)[list[i].0] == list[i].1,
    decreases list.len(),
{
    if i < list.len() - 1 {
        lemma_last(list.drop_last(), i);
    }
}

impl View for HandleTable {
    type V = Map<Seq<char>, Seq<char>>;

    closed spec fn view(&self) -> Map<Seq<char>, Seq<char>> {
        last_wins(pairs(self.entries@))
    }
}

impl HandleTable {
    /// A table without handles.
    pub fn new() -> (table: HandleTable)
        ensures
            table@ == Map::<Seq<char>, Seq<char>>::empty(),
    {
        let table = HandleTable { entries: Vec::new() };
        assert(pairs(table.entries@) =~= Seq::<(Seq<char>, Seq<char>)>::empty());
        table
    }

    /// Reads the listing with handles: every row that lists a drop rule with
    /// its handle enters its address and handle, the last row for an address
    /// winning.
    pub fn from_listing(text: &str) -> (table: HandleTable)
        ensures
            table@ == last_wins(listed_handles(text@)),
    {
        let lines = split_rows(text);
        let mut entries: Vec<(String, String)> = Vec::new();
        let mut i: usize = 0;
        assert(texts(lines@).take(0) =~= Seq::<Seq<char>>::empty());
        assert(pairs(entries@) =~= Seq::<(Seq<char>, Seq<char>)>::empty());
        while i < lines.len()
            invariant
                i <= lines.len(),
                texts(lines@) == rows(text@),
                pairs(entries@) == texts(lines@).take(i as int).filter_map(
                    |row: Seq<char>| rule_handle(row),
                ),
            decreases lines.len() - i,
        {
            proof {
                texts(lines@).lemma_filter_map_take_succ(
                    |row: Seq<char>| rule_handle(row),
                    i as int,
                );
            }
            match parse_handle(lines[i].as_str()) {
                Some(entry) => {
                    let ghost before = entries@;
                    let ghost pair = (entry.0@, entry.1@);
                    entries.push(entry);
                    assert(pairs(entries@) =~= pairs(before) + seq![pair]);
                },
                None => {},
            }
            i += 1;
        }
        assert(texts(lines@).take(i as int) =~= texts(lines@));
        HandleTable { entries }
    }

    /// The table after an attempt to list the rules with their handles:
    /// what `printed` lists if the attempt succeeded, and no handle at all
    /// if it failed, whatever was printed.
    pub fn from_outcome(succeeded: bool, printed: &str) -> (table: HandleTable)
        ensures
            table@ == if succeeded {
                last_wins(listed_handles(printed@))
            } else {
                Map::<Seq<char>, Seq<char>>::empty()
            },
    {
        if succeeded {
            HandleTable::from_listing(printed)
        } else {
            HandleTable::new()
        }
    }

    /// The handle of the rule that blocks `address`, if the table lists one.
    pub fn get(&self, address: &str) -> (handle: Option<String>)
        ensures
            opt_text(handle) == handle_of(self@, address@),
    {
        let mut i: usize = self.entries.len();
        while i > 0
            invariant
                i <= self.entries.len(),
                forall|j: int| i <= j < self.entries.len() ==> self.entries[j].0@ != address@,
            decreases i,
        {
            i -= 1;
            if same_text(self.entries[i].0.as_str(), address) {
                proof {
                    lemma_last(pairs(self.entries@), i as int);
                }
                return Some(self.entries[i].1.clone());
            }
        }
        proof {
            lemma_absent(pairs(self.entries@), address@);
        }
        None
    }
}

} // verus!
