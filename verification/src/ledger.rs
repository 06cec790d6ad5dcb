//! The ledger itself: a balance store with a fixed total supply, a read
//! path for balances and supply, and an atomic transfer operation.

use vstd::prelude::*;
use vstd::hash_map::StringHashMap;

use crate::balance_sum::balance_in;
use crate::balance_sum::lemma_sum_set_balance;
use crate::balance_sum::lemma_sum_two_distinct;
use crate::balance_sum::sum_of_balances;
use crate::entries::entries_map;
use crate::entries::entries_sum;
use crate::entries::keys_distinct;
use crate::entries::lemma_entries_map_dom;
use crate::entries::lemma_entries_sum_take_le;

verus! {

/// Why a transfer was rejected. A rejected transfer performs no state
/// mutation at all.
#[derive(Clone, Copy, Debug, PartialEq, Eq, Structural)]
pub enum TransferError {
    /// The sender's balance is smaller than the requested amount.
    InsufficientBalance,
}

/// What one successful transfer does to a balance map, stated purely over
/// observed balances: the sender is debited, the receiver credited, every
/// other account untouched, and a self-transfer changes nothing.
pub open spec fn transfer_effect(
    pre: Map<Seq<char>, u128>,
    post: Map<Seq<char>, u128>,
    sender_id: Seq<char>,
    receiver_id: Seq<char>,
    tokens: u128,
) -> bool {
    &&& balance_in(pre, sender_id) >= tokens
    &&& forall|other: Seq<char>|
        other != sender_id && other != receiver_id ==> balance_in(post, other) == balance_in(
            pre,
            other,
        )
    &&& sender_id == receiver_id ==> balance_in(post, sender_id) == balance_in(pre, sender_id)
    &&& sender_id != receiver_id ==> balance_in(post, sender_id) == balance_in(pre, sender_id)
        - tokens && balance_in(post, receiver_id) == balance_in(pre, receiver_id) + tokens
}

/// A fixed-supply token ledger: unique account identities mapped to
/// balances, plus the supply fixed at construction. The identities that
/// hold an entry are also kept as a list, so that the whole state can be
/// handed to a host's storage encoding as plain entries.
pub struct FungibleToken {
    user_accounts: StringHashMap<u128>,
    accounts: Vec<String>,
    total_supply: u128,
}

impl FungibleToken {
    /// The account list names exactly the identities with a stored entry,
    /// each once.
    pub closed spec fn repr_ok(self) -> bool {
        &&& forall|i: int| 0 <= i < self.accounts@.len() ==> self.user_accounts@.dom().contains(
            (#[trigger] self.accounts@[i])@,
        )
        &&& forall|k: Seq<char>| #[trigger] self.user_accounts@.dom().contains(k) ==> exists|
            i: int,
        | 0 <= i < self.accounts@.len() && self.accounts@[i]@ == k
        &&& forall|i: int, j: int| 0 <= i < j < self.accounts@.len() ==> (
        #[trigger] self.accounts@[i])@ != (#[trigger] self.accounts@[j])@
    }

    /// The stored balance entries, keyed by account identity.
    pub closed spec fn spec_balances(self) -> Map<Seq<char>, u128> {
        self.user_accounts@
    }

    /// The supply fixed when the ledger was created.
    pub closed spec fn spec_total_supply(self) -> u128 {
        self.total_supply
    }

    /// The balance an account holds: its stored entry, or zero when absent.
    pub open spec fn spec_balance_of(self, account_id: Seq<char>) -> u128 {
        balance_in(self.spec_balances(), account_id)
    }

    /// Well-formedness, kept by every operation: the store is finite, its
    /// account list is in step with it, and its entries sum exactly to the
    /// fixed supply (conservation).
    pub open spec fn wf(self) -> bool {
        &&& self.repr_ok()
        &&& self.spec_balances().dom().finite()
        &&& sum_of_balances(self.spec_balances()) == self.spec_total_supply()
    }

    /// Creates the ledger, minting the entire fixed supply to the single
    /// initializing account. Every other account starts at zero.
    pub fn new(initializer_id: String, total_supply: u128) -> (token: FungibleToken)
        ensures
            token.wf(),
            token.spec_total_supply() == total_supply,
            token.spec_balances() == Map::<Seq<char>, u128>::empty().insert(
                initializer_id@,
                total_supply,
            ),
            token.spec_balance_of(initializer_id@) == total_supply,
            forall|other: Seq<char>| other != initializer_id@ ==> token.spec_balance_of(other)
                == 0,
    {
        let ghost initializer_seq = initializer_id@;
        let mut user_accounts: StringHashMap<u128> = StringHashMap::new();
        let mut accounts: Vec<String> = Vec::new();
        accounts.push(initializer_id.clone());
        user_accounts.insert(initializer_id, total_supply);
        proof {
            lemma_sum_set_balance(
                Map::<Seq<char>, u128>::empty(),
                initializer_seq,
                total_supply,
            );
        }
        let token = FungibleToken { user_accounts, accounts, total_supply };
        proof {
            assert forall|k: Seq<char>| token.user_accounts@.dom().contains(k) implies exists|
                i: int,
            | 0 <= i < token.accounts@.len() && token.accounts@[i]@ == k by {
                assert(token.accounts@[0]@ == k);
            }
        }
        token
    }

    /// Returns the fixed total supply. Pure read, cannot fail.
    pub fn get_total_supply(&self) -> (supply: u128)
        ensures
            supply == self.spec_total_supply(),
    {
        self.total_supply
    }

    /// Returns the stored balance of the given account, or zero when the
    /// account has no entry. Pure read, cannot fail: an unknown account is
    /// a valid state, not an error.
    pub fn get_balance_of(&self, account_id: String) -> (balance: u128)
        ensures
            balance == self.spec_balance_of(account_id@),
    {
        match self.user_accounts.get(account_id.as_str()) {
            Some(balance) => *balance,
            None => 0,
        }
    }

    /// Hands the whole ledger state out as plain entries, one per stored
    /// account, for the host's storage encoding. The entries list every
    /// stored balance exactly once and sum to the fixed supply, so
    /// `from_entries` accepts them and rebuilds the same balances.
    pub fn state_entries(&self) -> (entries: Vec<(String, u128)>)
        requires
            self.wf(),
        ensures
            keys_distinct(entries@),
            entries_map(entries@) == self.spec_balances(),
            entries_sum(entries@) == self.spec_total_supply(),
    {
        let mut entries: Vec<(String, u128)> = Vec::new();
        let mut i: usize = 0;
        while i < self.accounts.len()
            invariant
                self.wf(),
                i <= self.accounts@.len(),
                entries@.len() == i,
                forall|j: int| 0 <= j < i ==> (#[trigger] entries@[j]).0@ == self.accounts@[j]@,
                forall|j: int| 0 <= j < i ==> (#[trigger] entries@[j]).1 == self.spec_balances()[self.accounts@[j]@],
                entries_map(entries@).dom().finite(),
                forall|k: Seq<char>| #[trigger] entries_map(entries@).dom().contains(k) <==> exists|
                    j: int,
                | 0 <= j < i && self.accounts@[j]@ == k,
                forall|k: Seq<char>| #[trigger] entries_map(entries@).dom().contains(k)
                    ==> entries_map(entries@)[k] == self.spec_balances()[k],
                entries_sum(entries@) == sum_of_balances(entries_map(entries@)),
            decreases self.accounts@.len() - i,
        {
            let account = &self.accounts[i];
            let balance: u128 = match self.user_accounts.get(account.as_str()) {
                Some(balance) => *balance,
                None => {
                    // Unreachable: every listed account has a stored entry.
                    proof {
                        assert(false);
                    }
                    0
                },
            };
            let ghost old_entries = entries@;
            let ghost key = self.accounts@[i as int]@;
            proof {
                if entries_map(old_entries).dom().contains(key) {
                    let j = choose|j: int| 0 <= j < i && self.accounts@[j]@ == key;
                    assert((self.accounts@[j])@ != (self.accounts@[i as int])@);
                }
                lemma_sum_set_balance(entries_map(old_entries), key, balance);
            }
            entries.push((account.clone(), balance));
            proof {
                assert(entries@.drop_last() =~= old_entries);
                assert(entries_map(entries@) == entries_map(old_entries).insert(key, balance));
                assert forall|k: Seq<char>| #[trigger] entries_map(entries@).dom().contains(k)
                    <==> exists|j: int| 0 <= j < i + 1 && self.accounts@[j]@ == k by {
                    if entries_map(entries@).dom().contains(k) {
                        if k == key {
                            assert(self.accounts@[i as int]@ == k);
                        } else {
                            let j = choose|j: int| 0 <= j < i && self.accounts@[j]@ == k;
                            assert(0 <= j < i + 1 && self.accounts@[j]@ == k);
                        }
                    } else {
                        if exists|j: int| 0 <= j < i + 1 && self.accounts@[j]@ == k {
                            let j = choose|j: int| 0 <= j < i + 1 && self.accounts@[j]@ == k;
                            if j < i {
                                assert(entries_map(old_entries).dom().contains(k));
                            }
                            assert(false);
                        }
                    }
                }
            }
            i += 1;
        }
        proof {
            assert forall|k: Seq<char>| self.spec_balances().dom().contains(
                k,
            ) implies entries_map(entries@).dom().contains(k) by {
                let j = choose|j: int| 0 <= j < self.accounts@.len() && self.accounts@[j]@ == k;
                assert(0 <= j < i && self.accounts@[j]@ == k);
            }
            assert forall|k: Seq<char>| entries_map(entries@).dom().contains(
                k,
            ) implies self.spec_balances().dom().contains(k) by {
                let j = choose|j: int| 0 <= j < i && self.accounts@[j]@ == k;
                assert(self.user_accounts@.dom().contains((self.accounts@[j])@));
            }
            assert(entries_map(entries@) =~= self.spec_balances());
        }
        entries
    }

    /// Rebuilds a ledger from plain entries, as handed back by the host's
    /// storage. Accepts the entries exactly when no account is listed
    /// twice and the balances sum to the stated total supply — what
    /// `state_entries` of a well-formed ledger always satisfies.
    pub fn from_entries(entries: Vec<(String, u128)>, total_supply: u128) -> (result: Option<
        FungibleToken,
    >)
        ensures
            result is Some <==> keys_distinct(entries@) && entries_sum(entries@) == total_supply,
            match result {
                Some(token) => {
                    &&& token.wf()
                    &&& token.spec_total_supply() == total_supply
                    &&& token.spec_balances() == entries_map(entries@)
                },
                None => true,
            },
    {
        let mut user_accounts: StringHashMap<u128> = StringHashMap::new();
        let mut accounts: Vec<String> = Vec::new();
        let mut running: u128 = 0;
        let mut i: usize = 0;
        while i < entries.len()
            invariant
                i <= entries@.len(),
                keys_distinct(entries@.take(i as int)),
                user_accounts@ == entries_map(entries@.take(i as int)),
                user_accounts@.dom().finite(),
                accounts@.len() == i,
                forall|j: int| 0 <= j < i ==> (#[trigger] accounts@[j])@ == entries@[j].0@,
                running == entries_sum(entries@.take(i as int)),
                running == sum_of_balances(user_accounts@),
            decreases entries@.len() - i,
        {
            let entry = &entries[i];
            let ghost prefix = entries@.take(i as int);
            let ghost key = entries@[i as int].0@;
            if user_accounts.contains_key(entry.0.as_str()) {
                proof {
                    lemma_entries_map_dom(prefix);
                    let j = choose|j: int| 0 <= j < prefix.len() && prefix[j].0@ == key;
                    assert(entries@[j].0@ == entries@[i as int].0@);
                    assert(!keys_distinct(entries@));
                }
                return None;
            }
            let next_running = match running.checked_add(entry.1) {
                Some(next_running) => next_running,
                None => {
                    proof {
                        assert(entries@.take(i as int + 1).drop_last() =~= prefix);
                        lemma_entries_sum_take_le(entries@, i as int + 1);
                        assert(entries_sum(entries@) > u128::MAX);
                    }
                    return None;
                },
            };
            proof {
                lemma_entries_map_dom(prefix);
                lemma_sum_set_balance(user_accounts@, key, entries@[i as int].1);
                assert(entries@.take(i as int + 1).drop_last() =~= prefix);
                assert forall|j1: int, j2: int| 0 <= j1 < j2 < i + 1 implies entries@[j1].0@
                    != entries@[j2].0@ by {
                    if j2 == i as int {
                        assert(!user_accounts@.dom().contains(key));
                        if entries@[j1].0@ == key {
                            assert(prefix[j1].0@ == key);
                            assert(user_accounts@.dom().contains(key));
                        }
                    } else {
                        assert(prefix[j1].0@ != prefix[j2].0@);
                        assert(prefix[j1].0@ == entries@[j1].0@);
                        assert(prefix[j2].0@ == entries@[j2].0@);
                    }
                }
            }
            accounts.push(entry.0.clone());
            user_accounts.insert(entry.0.clone(), entry.1);
            running = next_running;
            i += 1;
        }
        proof {
            assert(entries@.take(i as int) =~= entries@);
        }
        if running != total_supply {
            return None;
        }
        let token = FungibleToken { user_accounts, accounts, total_supply };
        proof {
            lemma_entries_map_dom(entries@);
            assert forall|j: int| 0 <= j < token.accounts@.len() implies token.user_accounts@.dom()
                .contains((token.accounts@[j])@) by {
                assert(entries@[j].0@ == token.accounts@[j]@);
            }
            assert forall|k: Seq<char>| token.user_accounts@.dom().contains(k) implies exists|
                j: int,
            | 0 <= j < token.accounts@.len() && token.accounts@[j]@ == k by {
                let j = choose|j: int| 0 <= j < entries@.len() && entries@[j].0@ == k;
                assert(token.accounts@[j]@ == k);
            }
        }
        Some(token)
    }

    /// Moves `tokens` from the sender to the receiver, atomically: either
    /// the whole transfer happens, or the ledger is left untouched.
    ///
    /// The sender's identity is decided by the host binding layer (the
    /// caller of the current invocation), never by untrusted input.
    ///
    /// Succeeds exactly when the sender's balance covers the amount; a
    /// zero-amount transfer and a self-transfer are valid no-ops. The
    /// receiver's credit cannot overflow: conservation bounds the sum of
    /// two distinct balances by the supply, so no overflow error exists.
    pub fn transfer(&mut self, sender_id: String, receiver_id: String, tokens: u128) -> (result:
        Result<(), TransferError>)
        requires
            old(self).wf(),
        ensures
            final(self).wf(),
            final(self).spec_total_supply() == old(self).spec_total_supply(),
            result is Ok <==> old(self).spec_balance_of(sender_id@) >= tokens,
            result is Ok ==> transfer_effect(
                old(self).spec_balances(),
                final(self).spec_balances(),
                sender_id@,
                receiver_id@,
                tokens,
            ),
            result is Err ==> result == Err::<(), TransferError>(
                TransferError::InsufficientBalance,
            ) && final(self).spec_balances() == old(self).spec_balances(),
    {
        let sender_balance: u128 = match self.user_accounts.get(sender_id.as_str()) {
            Some(balance) => *balance,
            None => 0,
        };
        if sender_balance < tokens {
            return Err(TransferError::InsufficientBalance);
        }
        if sender_id == receiver_id {
            // Debiting and crediting the same entry cancels out; writing
            // nothing is observationally the same and keeps the store as is.
            return Ok(());
        }
        let receiver_balance: u128 = match self.user_accounts.get(receiver_id.as_str()) {
            Some(balance) => *balance,
            None => 0,
        };
        let ghost pre = self.user_accounts@;
        let ghost pre_accounts = self.accounts@;
        let ghost sender_seq = sender_id@;
        let ghost receiver_seq = receiver_id@;
        let sender_known = self.user_accounts.contains_key(sender_id.as_str());
        if !sender_known {
            self.accounts.push(sender_id.clone());
        }
        let receiver_known = self.user_accounts.contains_key(receiver_id.as_str());
        if !receiver_known {
            self.accounts.push(receiver_id.clone());
        }
        proof {
            lemma_sum_two_distinct(pre, sender_seq, receiver_seq);
            lemma_sum_set_balance(pre, sender_seq, (sender_balance - tokens) as u128);
            lemma_sum_set_balance(
                pre.insert(sender_seq, (sender_balance - tokens) as u128),
                receiver_seq,
                (receiver_balance + tokens) as u128,
            );
        }
        self.user_accounts.insert(sender_id, sender_balance - tokens);
        self.user_accounts.insert(receiver_id, receiver_balance + tokens);
        proof {
            let post_accounts = self.accounts@;
            assert forall|i: int| 0 <= i < post_accounts.len() implies self.user_accounts@.dom()
                .contains((post_accounts[i])@) by {
                if i < pre_accounts.len() {
                    assert(pre.dom().contains(pre_accounts[i]@));
                }
            }
            assert forall|k: Seq<char>| self.user_accounts@.dom().contains(k) implies exists|
                i: int,
            | 0 <= i < post_accounts.len() && post_accounts[i]@ == k by {
                if pre.dom().contains(k) {
                    let i = choose|i: int| 0 <= i < pre_accounts.len() && pre_accounts[i]@ == k;
                    assert(post_accounts[i]@ == k);
                } else if k == sender_seq {
                    assert(post_accounts[pre_accounts.len() as int]@ == k);
                } else {
                    let i: int = if sender_known {
                        pre_accounts.len() as int
                    } else {
                        pre_accounts.len() as int + 1
                    };
                    assert(post_accounts[i]@ == k);
                }
            }
            assert forall|i: int, j: int| 0 <= i < j < post_accounts.len() implies (
            post_accounts[i])@ != (post_accounts[j])@ by {
                if i < pre_accounts.len() {
                    assert(pre.dom().contains(pre_accounts[i]@));
                }
            }
        }
        Ok(())
    }
}

} // verus!
