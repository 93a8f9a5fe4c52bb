//! Lists of addresses in cache order, and what filtering does to them.

use vstd::prelude::*;

verus! {

/// `order` without the addresses in `gone`; the others keep their places.
pub open spec fn without(order: Seq<Seq<char>>, gone: Set<Seq<char>>) -> Seq<Seq<char>> {
    order.filter(|a: Seq<char>| !gone.contains(a))
}

/// A list with one more address at its end holds that address and what it
/// held before, nothing else.
pub proof fn lemma_push_contains(list: Seq<Seq<char>>, last: Seq<char>)
    ensures
        forall|x: Seq<char>|
            #![trigger list.push(last).contains(x)]
            #![trigger list.contains(x)]
            list.push(last).contains(x) <==> list.contains(x) || x == last,
{
    assert forall|x: Seq<char>|
        #![trigger list.push(last).contains(x)]
        #![trigger list.contains(x)]
        list.push(last).contains(x) <==> list.contains(x) || x == last by {
        vstd::seq_lib::lemma_seq_contains_after_push(list, last, x);
    }
}

/// Dropping first the addresses in `gone` and then `a` drops `gone` with `a`.
pub proof fn lemma_without_more(order: Seq<Seq<char>>, gone: Set<Seq<char>>, a: Seq<char>)
    ensures
        without(without(order, gone), set![a]) == without(order, gone.insert(a)),
    decreases order.len(),
{
    reveal(Seq::filter);
    let first = |x: Seq<char>| !gone.contains(x);
    let second = |x: Seq<char>| !set![a].contains(x);
    if order.len() > 0 {
        lemma_without_more(order.drop_last(), gone, a);
        if first(order.last()) {
            order.drop_last().filter(first).lemma_filter_push(order.last(), second);
        }
    }
}

/// Filtering keeps a list free of repeats, and keeps only what was there.
pub proof fn lemma_filter_keeps(order: Seq<Seq<char>>, pred: spec_fn(Seq<char>) -> bool)
    requires
        order.no_duplicates(),
    ensures
        order.filter(pred).no_duplicates(),
        forall|a: Seq<char>| order.filter(pred).contains(a) ==> order.contains(a) && pred(a),
    decreases order.len(),
{
    reveal(Seq::filter);
    if order.len() > 0 {
        let front = order.drop_last();
        lemma_filter_keeps(front, pred);
        assert forall|a: Seq<char>| front.contains(a) implies order.contains(a) && a
            != order.last() by {
            let j = front.index_of(a);
            assert(order[j] == a);
        }
        assert(order.contains(order.last())) by {
            assert(order[order.len() - 1] == order.last());
        }
        let kept = front.filter(pred);
        if pred(order.last()) {
            assert forall|a: Seq<char>| kept.push(order.last()).contains(a) implies order.contains(
                a,
            ) && pred(a) by {
                let j = kept.push(order.last()).index_of(a);
                if j < kept.len() {
                    assert(kept[j] == a);
                }
            }
        }
    }
}

/// Dropping no address changes nothing.
pub proof fn lemma_without_none(order: Seq<Seq<char>>)
    ensures
        without(order, Set::empty()) == order,
    decreases order.len(),
{
    reveal(Seq::filter);
    if order.len() > 0 {
        lemma_without_none(order.drop_last());
        assert(order.drop_last().push(order.last()) =~= order);
    }
}

/// Dropping an address that does not occur changes nothing.
pub proof fn lemma_without_absent(order: Seq<Seq<char>>, a: Seq<char>)
    requires
        !order.contains(a),
    ensures
        without(order, set![a]) == order,
    decreases order.len(),
{
    reveal(Seq::filter);
    if order.len() > 0 {
        let front = order.drop_last();
        assert forall|x: Seq<char>| front.contains(x) implies order.contains(x) by {
            let j = front.index_of(x);
            assert(order[j] == x);
        }
        lemma_without_absent(front, a);
        assert(order.last() == order[order.len() - 1]);
        assert(front.push(order.last()) =~= order);
    }
}

/// Dropping the address at position `i` of a list without repeats takes out
/// that position and nothing else.
pub proof fn lemma_without_one(order: Seq<Seq<char>>, i: int)
    requires
        order.no_duplicates(),
        0 <= i < order.len(),
    ensures
        without(order, set![order[i]]) == order.remove(i),
    decreases order.len(),
{
    reveal(Seq::filter);
    let front = order.drop_last();
    if i == order.len() - 1 {
        assert(!front.contains(order[i])) by {
            if front.contains(order[i]) {
                let j = front.index_of(order[i]);
                assert(order[j] == order[i]);
            }
        }
        lemma_without_absent(front, order[i]);
        assert(order.remove(i) =~= front);
    } else {
        lemma_without_one(front, i);
        assert(front.remove(i).push(order.last()) =~= order.remove(i));
    }
}

} // verus!
