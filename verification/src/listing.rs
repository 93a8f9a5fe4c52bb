//! Reading the packet filter's rule table.
//!
//! The table arrives as text. It is cut into rows at line feeds and each row
//! into fields at white space; a row counts only if it has exactly the shape
//! of a rule this daemon installs, and every other row is passed over.

use vstd::prelude::*;
use vstd::std_specs::iter::IteratorSpec;
use crate::text::{opt_text, same_text, texts};

verus! {

/// Whether `c` separates fields: the characters with the Unicode property
/// `White_Space`.
pub open spec fn is_space(c: char) -> bool {
    let n = c as u32;
    ||| 0x09 <= n <= 0x0D
    ||| n == 0x20
    ||| n == 0x85
    ||| n == 0xA0
    ||| n == 0x1680
    ||| 0x2000 <= n <= 0x200A
    ||| n == 0x2028
    ||| n == 0x2029
    ||| n == 0x202F
    ||| n == 0x205F
    ||| n == 0x3000
}

/// The pieces of `text` between line feeds. There is always at least one:
/// text that ends in a line feed has an empty last row.
pub open spec fn rows(text: Seq<char>) -> Seq<Seq<char>>
    decreases text.len(),
{
    if text.len() == 0 {
        seq![Seq::empty()]
    } else {
        let before = rows(text.drop_last());
        if text.last() == '\n' {
            before.push(Seq::empty())
        } else {
            before.drop_last().push(before.last().push(text.last()))
        }
    }
}

/// The fields of `row`: its maximal runs of characters that are not white
/// space, from left to right.
pub open spec fn fields(row: Seq<char>) -> Seq<Seq<char>>
    decreases row.len(),
{
    if row.len() == 0 {
        Seq::empty()
    } else {
        let before = fields(row.drop_last());
        let c = row.last();
        if is_space(c) {
            before
        } else if row.len() >= 2 && !is_space(row[row.len() - 2]) {
            before.drop_last().push(before.last().push(c))
        } else {
            before.push(seq![c])
        }
    }
}

/// The number of fields in a row that lists a drop rule.
pub const RULE_FIELDS: usize = 4;

/// The number of fields in a row that lists a drop rule with its handle.
pub const HANDLE_FIELDS: usize = 7;

/// The fields of the row that lists the drop rule for `address`: the words
/// with which the rule is installed, a match on the source address followed
/// by the verdict.
pub open spec fn rule_row(address: Seq<char>) -> Seq<Seq<char>> {
    seq!["ip"@, "saddr"@, address, "drop"@]
}

/// The fields of the row that lists the drop rule for `address` together
/// with its handle.
pub open spec fn handle_row(address: Seq<char>, handle: Seq<char>) -> Seq<Seq<char>> {
    seq!["ip"@, "saddr"@, address, "drop"@, "#"@, "handle"@, handle]
}

/// The address a row blocks: its third field, if the fields of the row are
/// exactly those of a drop rule for that address. Any other row blocks none.
pub open spec fn rule_address(row: Seq<char>) -> Option<Seq<char>> {
    let f = fields(row);
    if f.len() == RULE_FIELDS && f == rule_row(f[2]) {
        Some(f[2])
    } else {
        None
    }
}

/// The address a row blocks and the handle of its rule: the third and the
/// seventh field, if the fields of the row are exactly those of a drop rule
/// for that address with that handle. Any other row gives none.
pub open spec fn rule_handle(row: Seq<char>) -> Option<(Seq<char>, Seq<char>)> {
    let f = fields(row);
    if f.len() == HANDLE_FIELDS && f == handle_row(f[2], f[6]) {
        Some((f[2], f[6]))
    } else {
        None
    }
}

/// The addresses blocked by the rows of `text`, one for each row that lists a
/// drop rule, in the order of the rows.
pub open spec fn listed_addresses(text: Seq<char>) -> Seq<Seq<char>> {
    rows(text).filter_map(|row: Seq<char>| rule_address(row))
}

/// The pairs of address and handle in the rows of `text`, one for each row
/// that lists a drop rule with its handle, in the order of the rows.
pub open spec fn listed_handles(text: Seq<char>) -> Seq<(Seq<char>, Seq<char>)> {
    rows(text).filter_map(|row: Seq<char>| rule_handle(row))
}

/// Decides `is_space`.
pub fn space(c: char) -> (yes: bool)
    ensures
        yes == is_space(c),
{
    let n: u32 = c as u32;
    (0x09 <= n && n <= 0x0D) || n == 0x20 || n == 0x85 || n == 0xA0 || n == 0x1680 || (0x2000 <= n
        && n <= 0x200A) || n == 0x2028 || n == 0x2029 || n == 0x202F || n == 0x205F || n == 0x3000
}

/// Cuts `text` into its rows.
pub fn split_rows(text: &str) -> (out: Vec<String>)
    ensures
        texts(out@) == rows(text@),
{
    let mut done: Vec<String> = Vec::new();
    let mut current = String::new();
    assert(text@.take(0) =~= Seq::<char>::empty());
    assert(texts(done@).push(current@) =~= rows(text@.take(0)));
    for c in it: text.chars()
        invariant
            it.seq() == text@,
            texts(done@).push(current@) == rows(text@.take(it.index())),
    {
        proof {
            let seen = text@.take(it.index() + 1);
            assert(seen.drop_last() =~= text@.take(it.index()));
            assert(seen.last() == c);
        }
        if c == '\n' {
            let ghost before = done@;
            done.push(current);
            current = String::new();
            assert(texts(done@) =~= texts(before).push(done@.last()@));
        } else {
            current.push(c);
            assert(texts(done@).push(current@).drop_last() =~= texts(done@));
        }
    }
    assert(text@.take(text@.len() as int) =~= text@);
    let ghost before = done@;
    done.push(current);
    assert(texts(done@) =~= texts(before).push(done@.last()@));
    done
}

/// Cuts `row` into its fields.
pub fn split_fields(row: &str) -> (out: Vec<String>)
    ensures
        texts(out@) == fields(row@),
{
    let mut done: Vec<String> = Vec::new();
    let mut current = String::new();
    let mut open = false;
    assert(row@.take(0) =~= Seq::<char>::empty());
    assert(texts(done@) =~= fields(row@.take(0)));
    for c in it: row.chars()
        invariant
            it.seq() == row@,
            open ==> it.index() > 0 && !is_space(row@[it.index() - 1]),
            !open ==> it.index() == 0 || is_space(row@[it.index() - 1]),
            !open ==> current@.len() == 0,
            fields(row@.take(it.index())) == if open {
                texts(done@).push(current@)
            } else {
                texts(done@)
            },
    {
        proof {
            let seen = row@.take(it.index() + 1);
            assert(seen.drop_last() =~= row@.take(it.index()));
            assert(seen.last() == c);
            if it.index() > 0 {
                assert(seen[seen.len() - 2] == row@[it.index() - 1]);
            }
        }
        if space(c) {
            if open {
                let ghost before = done@;
                done.push(current);
                current = String::new();
                open = false;
                assert(texts(done@) =~= texts(before).push(done@.last()@));
            }
        } else {
            current.push(c);
            if open {
                assert(texts(done@).push(current@).drop_last() =~= texts(done@));
            } else {
                assert(current@ =~= seq![c]);
            }
            open = true;
        }
    }
    assert(row@.take(row@.len() as int) =~= row@);
    if open {
        let ghost before = done@;
        done.push(current);
        assert(texts(done@) =~= texts(before).push(done@.last()@));
    }
    done
}

/// Whether the field at `at` is `word`.
fn field_is(f: &Vec<String>, at: usize, word: &str) -> (yes: bool)
    requires
        at < f.len(),
    ensures
        yes == (texts(f@)[at as int] == word@),
{
    same_text(f[at].as_str(), word)
}

/// Reads one row of the plain listing.
pub fn parse_rule(row: &str) -> (address: Option<String>)
    ensures
        opt_text(address) == rule_address(row@),
{
    let f = split_fields(row);
    if f.len() == RULE_FIELDS && field_is(&f, 0, "ip") && field_is(&f, 1, "saddr") && field_is(
        &f,
        3,
        "drop",
    ) {
        assert(texts(f@) =~= rule_row(texts(f@)[2]));
        Some(f[2].clone())
    } else {
        None
    }
}

/// Reads one row of the listing with handles.
pub fn parse_handle(row: &str) -> (entry: Option<(String, String)>)
    ensures
        match entry {
            Some((address, handle)) => rule_handle(row@) == Some((address@, handle@)),
            None => rule_handle(row@) is None,
        },
{
    let f = split_fields(row);
    if f.len() == HANDLE_FIELDS && field_is(&f, 0, "ip") && field_is(&f, 1, "saddr") && field_is(
        &f,
        3,
        "drop",
    ) && field_is(&f, 4, "#") && field_is(&f, 5, "handle") {
        assert(texts(f@) =~= handle_row(texts(f@)[2], texts(f@)[6]));
        Some((f[2].clone(), f[6].clone()))
    } else {
        None
    }
}

/// Reads the plain listing: the address of every row that lists a drop rule.
pub fn parse_rules(text: &str) -> (addresses: Vec<String>)
    ensures
        texts(addresses@) == listed_addresses(text@),
{
    let lines = split_rows(text);
    let mut addresses: Vec<String> = Vec::new();
    let mut i: usize = 0;
    assert(texts(lines@).take(0) =~= Seq::<Seq<char>>::empty());
    assert(texts(addresses@) =~= Seq::<Seq<char>>::empty());
    while i < lines.len()
        invariant
            i <= lines.len(),
            texts(lines@) == rows(text@),
            texts(addresses@) == texts(lines@).take(i as int).filter_map(
                |row: Seq<char>| rule_address(row),
            ),
        decreases lines.len() - i,
    {
        proof {
            texts(lines@).lemma_filter_map_take_succ(|row: Seq<char>| rule_address(row), i as int);
        }
        match parse_rule(lines[i].as_str()) {
            Some(address) => {
                let ghost before = addresses@;
                addresses.push(address);
                assert(texts(addresses@) =~= texts(before) + seq![address@]);
            },
            None => {},
        }
        i += 1;
    }
    assert(texts(lines@).take(i as int) =~= texts(lines@));
    addresses
}

/// A row that does not end in white space has a field.
proof fn lemma_open_field(row: Seq<char>)
    requires
        row.len() > 0,
        !is_space(row.last()),
    ensures
        fields(row).len() > 0,
    decreases row.len(),
{
    if row.len() >= 2 && !is_space(row[row.len() - 2]) {
        assert(row.drop_last().last() == row[row.len() - 2]);
        lemma_open_field(row.drop_last());
    }
}

/// A run of characters without white space is one field.
pub proof fn fields_of_word(word: Seq<char>)
    requires
        word.len() > 0,
        forall|j: int| 0 <= j < word.len() ==> !is_space(word[j]),
    ensures
        fields(word) == seq![word],
    decreases word.len(),
{
    let front = word.drop_last();
    if word.len() == 1 {
        assert(fields(front) =~= Seq::<Seq<char>>::empty());
        assert(seq![word.last()] =~= word);
    } else {
        fields_of_word(front);
        assert(front.push(word.last()) =~= word);
        assert(seq![front].drop_last().push(word) =~= seq![word]);
    }
}

/// White space parts a row: the fields of the whole are the fields to its
/// left followed by the fields to its right.
pub proof fn fields_across_space(left: Seq<char>, c: char, right: Seq<char>)
    requires
        is_space(c),
    ensures
        fields(left.push(c) + right) == fields(left) + fields(right),
    decreases right.len(),
{
    let whole = left.push(c) + right;
    if right.len() == 0 {
        assert(whole =~= left.push(c));
        assert(whole.drop_last() =~= left);
        assert(fields(left) + fields(right) =~= fields(left));
    } else {
        let front = right.drop_last();
        let d = right.last();
        fields_across_space(left, c, front);
        assert(whole.drop_last() =~= left.push(c) + front);
        assert(whole.last() == d);
        assert(whole[whole.len() - 2] == if front.len() == 0 {
            c
        } else {
            front.last()
        });
        if is_space(d) {
        } else if front.len() > 0 && !is_space(front.last()) {
            lemma_open_field(front);
            let parts = fields(front);
            assert((fields(left) + parts).drop_last().push(parts.last().push(d)) =~= fields(left)
                + parts.drop_last().push(parts.last().push(d)));
        } else {
            assert((fields(left) + fields(front)).push(seq![d]) =~= fields(left) + fields(
                front,
            ).push(seq![d]));
        }
    }
}

/// No field is empty, and no field holds white space.
pub proof fn fields_are_words(row: Seq<char>)
    ensures
        forall|i: int|
            0 <= i < fields(row).len() ==> (#[trigger] fields(row)[i]).len() > 0 && forall|j: int|
                0 <= j < fields(row)[i].len() ==> !is_space(fields(row)[i][j]),
    decreases row.len(),
{
    if row.len() > 0 {
        let front = row.drop_last();
        let c = row.last();
        fields_are_words(front);
        if !is_space(c) && row.len() >= 2 && !is_space(row[row.len() - 2]) {
            assert(front.last() == row[row.len() - 2]);
            lemma_open_field(front);
        }
    }
}

/// Text without a line feed is one row.
pub proof fn rows_of_line(line: Seq<char>)
    requires
        forall|j: int| 0 <= j < line.len() ==> line[j] != '\n',
    ensures
        rows(line) == seq![line],
    decreases line.len(),
{
    if line.len() == 0 {
        assert(line =~= Seq::<char>::empty());
    } else {
        let front = line.drop_last();
        rows_of_line(front);
        assert(front.push(line.last()) =~= line);
        assert(seq![front].drop_last().push(line) =~= seq![line]);
    }
}

/// There is always a row.
proof fn lemma_some_row(text: Seq<char>)
    ensures
        rows(text).len() > 0,
    decreases text.len(),
{
    if text.len() > 0 {
        lemma_some_row(text.drop_last());
    }
}

/// A line feed parts a text: the rows of the whole are the rows above it
/// followed by the rows below it.
pub proof fn rows_across_feed(above: Seq<char>, below: Seq<char>)
    ensures
        rows(above.push('\n') + below) == rows(above) + rows(below),
    decreases below.len(),
{
    let whole = above.push('\n') + below;
    lemma_some_row(above);
    if below.len() == 0 {
        assert(whole =~= above.push('\n'));
        assert(whole.drop_last() =~= above);
        assert(rows(below) =~= seq![Seq::<char>::empty()]);
        assert(rows(above).push(Seq::empty()) =~= rows(above) + rows(below));
    } else {
        let front = below.drop_last();
        let d = below.last();
        rows_across_feed(above, front);
        lemma_some_row(front);
        assert(whole.drop_last() =~= above.push('\n') + front);
        assert(whole.last() == d);
        let parts = rows(front);
        if d == '\n' {
            assert((rows(above) + parts).push(Seq::empty()) =~= rows(above) + parts.push(
                Seq::empty(),
            ));
        } else {
            assert((rows(above) + parts).drop_last().push(parts.last().push(d)) =~= rows(above)
                + parts.drop_last().push(parts.last().push(d)));
        }
    }
}

/// No row holds a line feed.
pub proof fn rows_are_lines(text: Seq<char>)
    ensures
        forall|i: int, j: int|
            0 <= i < rows(text).len() && 0 <= j < rows(text)[i].len() ==> #[trigger] rows(
                text,
            )[i][j] != '\n',
    decreases text.len(),
{
    if text.len() > 0 {
        rows_are_lines(text.drop_last());
        lemma_some_row(text.drop_last());
    }
}

} // verus!
