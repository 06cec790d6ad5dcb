//! The ledger's laws, stated and proved once over the spec-level model
//! that the operations' contracts speak of.

use vstd::prelude::*;

use crate::balance_sum::balance_in;
use crate::balance_sum::lemma_sum_two_distinct;
use crate::balance_sum::sum_of_balances;
use crate::ledger::transfer_effect;
use crate::ledger::FungibleToken;

verus! {

/// Conservation: the stored balances of a well-formed ledger sum exactly
/// to its fixed total supply. `new` establishes well-formedness and
/// `transfer` preserves it, so this holds at every observation point of
/// any sequence of successful transfers.
pub proof fn lemma_conservation(token: FungibleToken)
    requires
        token.wf(),
    ensures
        sum_of_balances(token.spec_balances()) == token.spec_total_supply(),
{
}

/// Zero default: an account with no stored entry reads as balance zero.
pub proof fn lemma_zero_default(token: FungibleToken, account_id: Seq<char>)
    requires
        !token.spec_balances().dom().contains(account_id),
    ensures
        token.spec_balance_of(account_id) == 0,
{
}

/// Frame: a successful transfer leaves every account other than the sender
/// and the receiver exactly as it was. In particular an account that has
/// never been credited stays at zero.
pub proof fn lemma_untouched_account(
    pre: Map<Seq<char>, u128>,
    post: Map<Seq<char>, u128>,
    sender_id: Seq<char>,
    receiver_id: Seq<char>,
    tokens: u128,
    other: Seq<char>,
)
    requires
        transfer_effect(pre, post, sender_id, receiver_id, tokens),
        other != sender_id,
        other != receiver_id,
    ensures
        balance_in(post, other) == balance_in(pre, other),
{
}

/// Self-transfer: a successful transfer whose receiver is the sender
/// itself leaves every balance unchanged — the account's own balance is
/// neither doubled nor zeroed, and nobody else is touched.
pub proof fn lemma_self_transfer(
    pre: Map<Seq<char>, u128>,
    post: Map<Seq<char>, u128>,
    account_id: Seq<char>,
    tokens: u128,
)
    requires
        transfer_effect(pre, post, account_id, account_id, tokens),
    ensures
        balance_in(post, account_id) == balance_in(pre, account_id),
        forall|other: Seq<char>| other != account_id ==> balance_in(post, other) == balance_in(
            pre,
            other,
        ),
{
}

/// Additivity of two chained transfers between pairwise distinct accounts
/// `a`, `b` and `c`: after `a` pays `x` to `b` and then `b` pays `y` to
/// `c`, account `a` lost exactly `x`, account `b` holds its prior balance
/// plus `x` minus `y`, and account `c` gained exactly `y`.
pub proof fn lemma_additivity(
    m0: Map<Seq<char>, u128>,
    m1: Map<Seq<char>, u128>,
    m2: Map<Seq<char>, u128>,
    a: Seq<char>,
    b: Seq<char>,
    c: Seq<char>,
    x: u128,
    y: u128,
)
    requires
        transfer_effect(m0, m1, a, b, x),
        transfer_effect(m1, m2, b, c, y),
        a != b,
        b != c,
        a != c,
    ensures
        balance_in(m2, a) == balance_in(m0, a) - x,
        balance_in(m2, b) == balance_in(m0, b) + x - y,
        balance_in(m2, c) == balance_in(m0, c) + y,
{
}

/// No overflow on credit: two distinct accounts of a well-formed ledger
/// never hold more than the total supply together, so crediting a covered
/// transfer amount to the receiver stays within the balance width and the
/// ledger needs no overflow error.
pub proof fn lemma_no_receiver_overflow(
    token: FungibleToken,
    sender_id: Seq<char>,
    receiver_id: Seq<char>,
)
    requires
        token.wf(),
        sender_id != receiver_id,
    ensures
        token.spec_balance_of(sender_id) + token.spec_balance_of(receiver_id)
            <= token.spec_total_supply(),
{
    lemma_sum_two_distinct(token.spec_balances(), sender_id, receiver_id);
}

} // verus!
