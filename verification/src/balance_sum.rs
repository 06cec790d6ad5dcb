//! Mathematical model of a balance store: a finite map from account
//! identity to an unsigned balance, together with the sum of all stored
//! entries. The sum is what the conservation invariant speaks of.

use vstd::prelude::*;

verus! {

/// The balance an account holds in a balance map: its stored entry, or
/// zero when no entry exists. Absence of an entry is never an error.
pub open spec fn balance_in(m: Map<Seq<char>, u128>, account_id: Seq<char>) -> u128 {
    if m.dom().contains(account_id) {
        m[account_id]
    } else {
        0
    }
}

/// The total value held in a balance map: the sum of every stored entry.
pub open spec fn sum_of_balances(m: Map<Seq<char>, u128>) -> int
    decreases m.dom().len()
        when m.dom().finite()
{
    if m.dom().finite() && m.dom().len() > 0 {
        let k = m.dom().choose();
        m[k] + sum_of_balances(m.remove(k))
    } else {
        0
    }
}

/// Removing any one entry takes exactly its value out of the sum,
/// no matter which entry the recursion in `sum_of_balances` picks first.
pub proof fn lemma_sum_remove(m: Map<Seq<char>, u128>, k: Seq<char>)
    requires
        m.dom().finite(),
        m.dom().contains(k),
    ensures
        sum_of_balances(m) == sum_of_balances(m.remove(k)) + m[k],
    decreases m.dom().len(),
{
    let k0 = m.dom().choose();
    assert(m.dom().contains(k0));
    if k0 == k {
        assert(sum_of_balances(m) == m[k] + sum_of_balances(m.remove(k)));
    } else {
        lemma_sum_remove(m.remove(k0), k);
        lemma_sum_remove(m.remove(k), k0);
        assert(m.remove(k0).remove(k) =~= m.remove(k).remove(k0));
    }
}

/// Overwriting (or creating) one entry changes the sum by the difference
/// between the new value and the balance previously read there.
pub proof fn lemma_sum_set_balance(m: Map<Seq<char>, u128>, k: Seq<char>, v: u128)
    requires
        m.dom().finite(),
    ensures
        sum_of_balances(m.insert(k, v)) == sum_of_balances(m) - balance_in(m, k) + v,
{
    lemma_sum_remove(m.insert(k, v), k);
    if m.dom().contains(k) {
        lemma_sum_remove(m, k);
        assert(m.insert(k, v).remove(k) =~= m.remove(k));
    } else {
        assert(m.insert(k, v).remove(k) =~= m);
    }
}

/// The sum of unsigned entries is never negative.
pub proof fn lemma_sum_nonneg(m: Map<Seq<char>, u128>)
    requires
        m.dom().finite(),
    ensures
        sum_of_balances(m) >= 0,
    decreases m.dom().len(),
{
    if m.dom().len() > 0 {
        lemma_sum_nonneg(m.remove(m.dom().choose()));
    }
}

/// Two distinct accounts never hold more together than the whole map holds.
pub proof fn lemma_sum_two_distinct(m: Map<Seq<char>, u128>, a: Seq<char>, b: Seq<char>)
    requires
        m.dom().finite(),
        a != b,
    ensures
        balance_in(m, a) + balance_in(m, b) <= sum_of_balances(m),
{
    if m.dom().contains(a) {
        lemma_sum_remove(m, a);
        if m.dom().contains(b) {
            lemma_sum_remove(m.remove(a), b);
            lemma_sum_nonneg(m.remove(a).remove(b));
        } else {
            lemma_sum_nonneg(m.remove(a));
        }
    } else {
        if m.dom().contains(b) {
            lemma_sum_remove(m, b);
            lemma_sum_nonneg(m.remove(b));
        } else {
            lemma_sum_nonneg(m);
        }
    }
}

} // verus!
