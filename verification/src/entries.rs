//! The ledger state as a plain sequence of entries — the shape in which a
//! host hands the state to its storage encoding and gets it back.

use vstd::prelude::*;

verus! {

/// No two entries name the same account.
pub open spec fn keys_distinct(entries: Seq<(String, u128)>) -> bool {
    forall|i: int, j: int| 0 <= i < j < entries.len() ==> entries[i].0@ != entries[j].0@
}

/// The balance map an entry sequence describes; a later entry for the same
/// account would win, but `keys_distinct` sequences have no such pair.
pub open spec fn entries_map(entries: Seq<(String, u128)>) -> Map<Seq<char>, u128>
    decreases entries.len(),
{
    if entries.len() == 0 {
        Map::empty()
    } else {
        entries_map(entries.drop_last()).insert(entries.last().0@, entries.last().1)
    }
}

/// The sum of the listed balances.
pub open spec fn entries_sum(entries: Seq<(String, u128)>) -> int
    decreases entries.len(),
{
    if entries.len() == 0 {
        0
    } else {
        entries_sum(entries.drop_last()) + entries.last().1
    }
}

/// The accounts an entry sequence names are exactly the keys of its map.
pub proof fn lemma_entries_map_dom(entries: Seq<(String, u128)>)
    ensures
        entries_map(entries).dom().finite(),
        forall|k: Seq<char>| #[trigger] entries_map(entries).dom().contains(k) <==> exists|i: int|
            0 <= i < entries.len() && entries[i].0@ == k,
    decreases entries.len(),
{
    if entries.len() > 0 {
        let prefix = entries.drop_last();
        lemma_entries_map_dom(prefix);
        assert forall|k: Seq<char>| #[trigger] entries_map(entries).dom().contains(k) implies exists|
            i: int,
        | 0 <= i < entries.len() && entries[i].0@ == k by {
            if k == entries.last().0@ {
                assert(entries[entries.len() - 1].0@ == k);
            } else {
                let i = choose|i: int| 0 <= i < prefix.len() && prefix[i].0@ == k;
                assert(entries[i].0@ == k);
            }
        }
        assert forall|k: Seq<char>|
            (exists|i: int| 0 <= i < entries.len() && entries[i].0@ == k) implies #[trigger]
        entries_map(entries).dom().contains(k) by {
            let i = choose|i: int| 0 <= i < entries.len() && entries[i].0@ == k;
            if i < entries.len() - 1 {
                assert(prefix[i].0@ == k);
                assert(entries_map(prefix).dom().contains(k));
            }
        }
    }
}

/// A prefix never sums to more than the whole sequence: every balance is
/// unsigned.
pub proof fn lemma_entries_sum_take_le(entries: Seq<(String, u128)>, n: int)
    requires
        0 <= n <= entries.len(),
    ensures
        entries_sum(entries.take(n)) <= entries_sum(entries),
    decreases entries.len(),
{
    if n == entries.len() {
        assert(entries.take(n) =~= entries);
    } else {
        lemma_entries_sum_take_le(entries.drop_last(), n);
        assert(entries.drop_last().take(n) =~= entries.take(n));
    }
}

} // verus!
