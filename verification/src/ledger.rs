//! Validation of transactions against the ledger state: a single
//! transaction (its signature, the integrity of its hash, its sender's
//! balance), and the transactions of a block together (per sender: the
//! balance covers the total, and the nonces run on from the account's).

use vstd::prelude::*;
use vstd::relations::{sorted_by, total_ordering};

use crate::account::Account;
use crate::bytes::{eq32, is_zero64, zero64, StdByteArray};
use crate::crypto::{ed25519_verifies, sha3_256_digest};
use crate::errors::BlockValidationError;
use crate::hashing::DefaultHash;
use crate::signing::{DefaultVerifier, SigVerFunction};
use crate::transaction::{header_hash_bytes, Transaction};

verus! {

/// The transaction is signed, and its signature verifies under the sender's
/// key over the transaction's hash.
pub open spec fn signed_by_sender(t: Transaction) -> bool {
    t.signature@ != zero64() && ed25519_verifies(t.header.meta.sender@, t.hash@, t.signature@)
}

/// The hash the transaction carries is the SHA3-256 hash of its header.
pub open spec fn hash_matches(t: Transaction) -> bool {
    t.hash@ == sha3_256_digest(header_hash_bytes(t.header))
}

/// The balance of an account as the state gives it: 0 when the state has no
/// such account.
pub open spec fn balance_of(account: Option<&Account>) -> u64 {
    match account {
        Some(a) => a.balance,
        None => 0,
    }
}

/// Validates a transaction against the state: `sender_account` is the
/// sender's account in the state the transaction is checked against (`None`
/// when the state has none, which counts as an empty account). Checks, in
/// order, that the transaction is signed by its sender, that its hash is the
/// hash of its header, and that the sender's balance covers the amount.
pub fn validate_transaction(transaction: &Transaction, sender_account: Option<&Account>) -> (r: Result<(), BlockValidationError>)
    ensures
        !signed_by_sender(*transaction) ==> r matches Err(BlockValidationError::TransactionInvalidSignature),
        signed_by_sender(*transaction) && !hash_matches(*transaction) ==> (r matches Err(
            BlockValidationError::HashMismatch(declared, computed),
        ) && declared == transaction.hash && computed@ == sha3_256_digest(header_hash_bytes(transaction.header))),
        signed_by_sender(*transaction) && hash_matches(*transaction) && balance_of(sender_account)
            < transaction.header.meta.amount ==> (r matches Err(
            BlockValidationError::TransactionInsufficientBalance(b),
        ) && b == balance_of(sender_account)),
        r is Ok <==> signed_by_sender(*transaction) && hash_matches(*transaction) && balance_of(sender_account)
            >= transaction.header.meta.amount,
{
    let verifier = DefaultVerifier::from_bytes(&transaction.header.meta.sender);
    let signed = !is_zero64(&transaction.signature) && verifier.verify(&transaction.signature, transaction);
    if !signed {
        return Err(BlockValidationError::TransactionInvalidSignature);
    }
    let computed = transaction.header.hash(&mut DefaultHash::new());
    proof {
        assert(Seq::<u8>::empty() + header_hash_bytes(transaction.header) =~= header_hash_bytes(transaction.header));
    }
    if !eq32(&transaction.hash, &computed) {
        return Err(BlockValidationError::HashMismatch(transaction.hash, computed));
    }
    let balance = match sender_account {
        Some(a) => a.balance,
        None => 0,
    };
    if balance < transaction.header.meta.amount {
        return Err(BlockValidationError::TransactionInsufficientBalance(balance));
    }
    Ok(())
}

/// Whether a transaction passes `validate_transaction` with the balance
/// `balance`.
pub open spec fn passes(t: Transaction, balance: u64) -> bool {
    signed_by_sender(t) && hash_matches(t) && balance >= t.header.meta.amount
}

/// `e` is the error that `validate_transaction` gives a failing transaction
/// with the balance `balance`.
pub open spec fn transaction_error(t: Transaction, balance: u64, e: BlockValidationError) -> bool {
    if !signed_by_sender(t) {
        e matches BlockValidationError::TransactionInvalidSignature
    } else if !hash_matches(t) {
        e matches BlockValidationError::HashMismatch(declared, computed) && declared == t.hash && computed@
            == sha3_256_digest(header_hash_bytes(t.header))
    } else {
        e matches BlockValidationError::TransactionInsufficientBalance(b) && b == balance
    }
}

/// Whether a transaction is sent by `sender`.
pub open spec fn sender_is(sender: Seq<u8>) -> spec_fn(Transaction) -> bool {
    |t: Transaction| t.header.meta.sender@ == sender
}

/// The transactions of `txs` sent by `sender`, in order.
pub open spec fn sent_by(txs: Seq<Transaction>, sender: Seq<u8>) -> Seq<Transaction> {
    txs.filter(sender_is(sender))
}

/// The sum of the amounts of the transactions.
pub open spec fn total_amount(ts: Seq<Transaction>) -> int
    decreases ts.len(),
{
    if ts.len() == 0 {
        0
    } else {
        total_amount(ts.drop_last()) + ts.last().header.meta.amount
    }
}

/// The order of nonces.
pub open spec fn nonce_leq() -> spec_fn(u64, u64) -> bool {
    |a: u64, b: u64| a <= b
}

/// The nonces of the transactions, in increasing order.
pub open spec fn sorted_nonces(ts: Seq<Transaction>) -> Seq<u64> {
    ts.map_values(|t: Transaction| t.header.meta.nonce).sort_by(nonce_leq())
}

/// The first place where increasing nonces are not consecutive: the nonce
/// expected there and the one found.
pub open spec fn first_gap(s: Seq<u64>) -> Option<(int, u64)>
    decreases s.len(),
{
    if s.len() < 2 {
        None
    } else if s[0] + 1 != s[1] {
        Some((s[0] + 1, s[1]))
    } else {
        first_gap(s.drop_first())
    }
}

/// The first transaction that fails `validate_transaction` with the balance
/// `balance`.
pub open spec fn first_failing(ts: Seq<Transaction>, balance: u64) -> Option<Transaction>
    decreases ts.len(),
{
    if ts.len() == 0 {
        None
    } else if !passes(ts[0], balance) {
        Some(ts[0])
    } else {
        first_failing(ts.drop_first(), balance)
    }
}

/// The account of `address` among `accounts`: the first with that address.
pub open spec fn account_for(accounts: Seq<Account>, address: Seq<u8>) -> Option<Account>
    decreases accounts.len(),
{
    if accounts.len() == 0 {
        None
    } else if accounts[0].address@ == address {
        Some(accounts[0])
    } else {
        account_for(accounts.drop_first(), address)
    }
}

/// The balance of an account (0 for none).
pub open spec fn account_balance(a: Option<Account>) -> u64 {
    match a {
        Some(x) => x.balance,
        None => 0,
    }
}

/// The nonce of an account (0 for none).
pub open spec fn account_nonce(a: Option<Account>) -> u64 {
    match a {
        Some(x) => x.nonce,
        None => 0,
    }
}

/// The transactions `ts` of one sender pass against its account: the
/// balance covers their total, each passes on its own, and their nonces are
/// consecutive from the account's nonce.
pub open spec fn sender_passes(ts: Seq<Transaction>, account: Option<Account>) -> bool {
    &&& total_amount(ts) <= account_balance(account)
    &&& first_failing(ts, account_balance(account)) is None
    &&& first_gap(sorted_nonces(ts)) is None
    &&& sorted_nonces(ts)[0] == account_nonce(account)
}

/// `e` is the error that the checks of one sender give, in their order:
/// total against balance, each transaction, consecutive nonces, first nonce.
pub open spec fn sender_error(ts: Seq<Transaction>, account: Option<Account>, e: BlockValidationError) -> bool {
    let balance = account_balance(account);
    let s = sorted_nonces(ts);
    if total_amount(ts) > balance {
        e matches BlockValidationError::TransactionInsufficientBalance(b) && b == balance
    } else if first_failing(ts, balance) is Some {
        transaction_error(first_failing(ts, balance)->0, balance, e)
    } else if first_gap(s) is Some {
        let gap = first_gap(s)->0;
        e matches BlockValidationError::TransactionNonceMismatch(x, y) && x == gap.0 && y == gap.1
    } else {
        e matches BlockValidationError::TransactionNonceMismatch(x, y) && x == account_nonce(account) && y == s[0]
    }
}

/// Checking a sender computes the total of its amounts, and, once its
/// single transactions pass, the nonce after each of its nonces up to the
/// first gap; both must fit in 64 bits.
pub open spec fn sender_fits(ts: Seq<Transaction>, account: Option<Account>) -> bool {
    &&& total_amount(ts) <= u64::MAX
    &&& (total_amount(ts) <= account_balance(account) && first_failing(ts, account_balance(account)) is None)
        ==> (first_gap(sorted_nonces(ts)) matches Some(g) ==> g.0 <= u64::MAX)
}

proof fn lemma_nonce_order()
    ensures
        total_ordering(nonce_leq()),
{
}

/// Sorts nonces into increasing order.
fn sort_nonces(v: &Vec<u64>) -> (r: Vec<u64>)
    ensures
        sorted_by(r@, nonce_leq()),
        r@.to_multiset() == v@.to_multiset(),
{
    broadcast use vstd::seq_lib::group_to_multiset_ensures;
    let mut out: Vec<u64> = Vec::new();
    let mut i: usize = 0;
    while i < v.len()
        invariant
            0 <= i <= v@.len(),
            sorted_by(out@, nonce_leq()),
            out@.to_multiset() == v@.subrange(0, i as int).to_multiset(),
        decreases v@.len() - i,
    {
        let x = v[i];
        let mut j: usize = 0;
        while j < out.len() && out[j] <= x
            invariant
                0 <= j <= out@.len(),
                forall|k: int| 0 <= k < j ==> out@[k] <= x,
            decreases out@.len() - j,
        {
            j = j + 1;
        }
        let ghost before = out@;
        out.insert(j, x);
        proof {
            assert(v@.subrange(0, i + 1) =~= v@.subrange(0, i as int).push(x));
            assert(out@ == before.insert(j as int, x));
            vstd::seq_lib::to_multiset_insert(before, j as int, x);
            v@.subrange(0, i as int).to_multiset_ensures();
            assert forall|a: int, b: int| 0 <= a < b < out@.len() implies #[trigger] nonce_leq()(out@[a], out@[b]) by {
                if j < before.len() {
                    assert(!(before[j as int] <= x));
                }
                if a < j && b < j {
                    assert(nonce_leq()(before[a], before[b]));
                } else if a < j && b == j {
                } else if a < j {
                    assert(nonce_leq()(before[a], before[b - 1]));
                } else if a == j {
                    assert(nonce_leq()(before[j as int], before[b - 1]) || b - 1 == j);
                } else {
                    assert(nonce_leq()(before[a - 1], before[b - 1]));
                }
            }
        }
        i = i + 1;
    }
    assert(v@.subrange(0, v@.len() as int) =~= v@);
    out
}

/// Validates the transactions of a block against the state: `accounts`
/// holds the accounts of the state that the block is checked against (a
/// sender without one counts as an empty account). For each sender, the
/// balance must cover the total of its amounts, each of its transactions
/// must pass `validate_transaction`, and its nonces must be consecutive from
/// its account's nonce.
///
/// Succeeds exactly when every sender passes. On failure the error is the
/// one that the checks of a failing sender give; which failing sender is
/// reported is left open.
pub fn validate_transaction_set(transactions: &Vec<Transaction>, accounts: &Vec<Account>) -> (r: Result<(), BlockValidationError>)
    requires
        forall|u: Seq<u8>|
            #[trigger] sent_by(transactions@, u).len() > 0 ==> sender_fits(
                sent_by(transactions@, u),
                account_for(accounts@, u),
            ),
    ensures
        r is Ok <==> forall|u: Seq<u8>|
            #[trigger] sent_by(transactions@, u).len() > 0 ==> sender_passes(
                sent_by(transactions@, u),
                account_for(accounts@, u),
            ),
        r matches Err(e) ==> exists|u: Seq<u8>|
            #[trigger] sent_by(transactions@, u).len() > 0 && !sender_passes(
                sent_by(transactions@, u),
                account_for(accounts@, u),
            ) && sender_error(sent_by(transactions@, u), account_for(accounts@, u), e),
{
    let mut seen: Vec<StdByteArray> = Vec::new();
    let mut i: usize = 0;
    while i < transactions.len()
        invariant
            0 <= i <= transactions@.len(),
            forall|u: Seq<u8>|
                #[trigger] sent_by(transactions@, u).len() > 0 ==> sender_fits(
                    sent_by(transactions@, u),
                    account_for(accounts@, u),
                ),
            forall|k: int|
                0 <= k < seen@.len() ==> sent_by(transactions@, (#[trigger] seen@[k])@).len() > 0 && sender_passes(
                    sent_by(transactions@, seen@[k]@),
                    account_for(accounts@, seen@[k]@),
                ),
            forall|k: int|
                0 <= k < i ==> exists|m: int|
                    0 <= m < seen@.len() && (#[trigger] seen@[m])@ == (#[trigger] transactions@[k]).header.meta.sender@,
        decreases transactions@.len() - i,
    {
        let u = transactions[i].header.meta.sender;
        let mut known = false;
        let mut m: usize = 0;
        while m < seen.len()
            invariant
                0 <= m <= seen@.len(),
                known ==> exists|q: int| 0 <= q < seen@.len() && (#[trigger] seen@[q])@ == u@,
            decreases seen@.len() - m,
        {
            if eq32(&seen[m], &u) {
                known = true;
            }
            m = m + 1;
        }
        if !known {
            proof {
                lemma_in_sent_by(transactions@, i as int);
            }
            match check_sender(transactions, accounts, &u) {
                Err(e) => {
                    return Err(e);
                },
                Ok(()) => {},
            }
            let ghost seen_before = seen@;
            seen.push(u);
            proof {
                assert forall|k: int| 0 <= k <= i implies exists|q: int|
                    0 <= q < seen@.len() && (#[trigger] seen@[q])@ == (#[trigger] transactions@[k]).header.meta.sender@ by {
                    if k < i {
                        let q = choose|q: int|
                            0 <= q < seen_before.len() && (#[trigger] seen_before[q])@
                                == transactions@[k].header.meta.sender@;
                        assert(seen@[q] == seen_before[q]);
                    } else {
                        assert(seen@[seen@.len() - 1] == u);
                    }
                }
            }
        }
        i = i + 1;
    }
    proof {
        assert forall|u: Seq<u8>| #[trigger] sent_by(transactions@, u).len() > 0 implies sender_passes(
            sent_by(transactions@, u),
            account_for(accounts@, u),
        ) by {
            let k = lemma_sender_present(transactions@, u);
            let q = choose|q: int|
                0 <= q < seen@.len() && (#[trigger] seen@[q])@ == (#[trigger] transactions@[k]).header.meta.sender@;
        }
    }
    Ok(())
}

/// The sender of the `i`-th transaction sent something.
proof fn lemma_in_sent_by(txs: Seq<Transaction>, i: int)
    requires
        0 <= i < txs.len(),
    ensures
        sent_by(txs, txs[i].header.meta.sender@).len() > 0,
{
    let u = txs[i].header.meta.sender@;
    let pred = sender_is(u);
    txs.lemma_filter_contains(pred, i);
}

/// A sender that sent something sent some transaction of the list.
proof fn lemma_sender_present(txs: Seq<Transaction>, u: Seq<u8>) -> (k: int)
    requires
        sent_by(txs, u).len() > 0,
    ensures
        0 <= k < txs.len(),
        txs[k].header.meta.sender@ == u,
{
    let pred = sender_is(u);
    let t = txs.filter(pred)[0];
    txs.lemma_filter_pred(pred, 0);
    assert(txs.filter(pred).contains(t));
    txs.lemma_filter_contains_rev(pred, t);
    choose|k: int| 0 <= k < txs.len() && txs[k] == t
}

/// The account of `address` among `accounts`: the first with that address.
fn find_account<'a>(accounts: &'a Vec<Account>, address: &StdByteArray) -> (r: Option<&'a Account>)
    ensures
        match r {
            Some(a) => account_for(accounts@, address@) == Some(*a),
            None => account_for(accounts@, address@) is None,
        },
{
    let mut i: usize = 0;
    assert(accounts@.subrange(0, accounts@.len() as int) =~= accounts@);
    while i < accounts.len()
        invariant
            0 <= i <= accounts@.len(),
            account_for(accounts@, address@) == account_for(accounts@.subrange(i as int, accounts@.len() as int), address@),
        decreases accounts@.len() - i,
    {
        let ghost rest = accounts@.subrange(i as int, accounts@.len() as int);
        assert(rest.len() > 0);
        assert(rest.drop_first() =~= accounts@.subrange(i + 1, accounts@.len() as int));
        assert(rest[0] == accounts@[i as int]);
        if eq32(&accounts[i].address, address) {
            return Some(&accounts[i]);
        }
        i = i + 1;
    }
    None
}

/// The transactions of `txs` at the indices `idx`.
spec fn at_indices(txs: Seq<Transaction>, idx: Seq<usize>) -> Seq<Transaction> {
    idx.map_values(|j: usize| txs[j as int])
}

/// Facts about `first_failing` once the first `m` transactions pass.
proof fn lemma_first_failing(ts: Seq<Transaction>, balance: u64, m: int)
    requires
        0 <= m <= ts.len(),
        forall|k: int| 0 <= k < m ==> passes(#[trigger] ts[k], balance),
    ensures
        m == ts.len() ==> first_failing(ts, balance) is None,
        m < ts.len() && !passes(ts[m], balance) ==> first_failing(ts, balance) == Some(ts[m]),
    decreases m,
{
    if ts.len() > 0 && m > 0 {
        lemma_first_failing(ts.drop_first(), balance, m - 1);
    }
}

/// Facts about `first_gap` once the first `g` steps are consecutive.
proof fn lemma_first_gap(s: Seq<u64>, g: int)
    requires
        0 <= g,
        g + 1 <= s.len() || (g == 0 && s.len() <= 1),
        forall|k: int| 0 <= k < g ==> #[trigger] s[k] + 1 == s[k + 1],
    ensures
        g + 1 == s.len() || s.len() <= 1 ==> first_gap(s) is None,
        g + 1 < s.len() && s[g] + 1 != s[g + 1] ==> first_gap(s) == Some((s[g] + 1, s[g + 1])),
    decreases g,
{
    if s.len() >= 2 && g > 0 {
        let t = s.drop_first();
        assert forall|k: int| 0 <= k < g - 1 implies #[trigger] t[k] + 1 == t[k + 1] by {
            assert(s[k + 1] + 1 == s[k + 2]);
        }
        lemma_first_gap(t, g - 1);
    }
}

/// `total_amount` of a sequence with one more transaction.
proof fn lemma_total_push(ts: Seq<Transaction>, t: Transaction)
    ensures
        total_amount(ts.push(t)) == total_amount(ts) + t.header.meta.amount,
        total_amount(ts) <= ts.len() * u64::MAX,
    decreases ts.len(),
{
    assert(ts.push(t).drop_last() =~= ts);
    if ts.len() > 0 {
        lemma_total_push(ts.drop_last(), ts.last());
        assert(ts.drop_last().push(ts.last()) =~= ts);
    }
}

/// Checks one sender, `sender`, against its account.
fn check_sender(transactions: &Vec<Transaction>, accounts: &Vec<Account>, sender: &StdByteArray) -> (r: Result<(), BlockValidationError>)
    requires
        sent_by(transactions@, sender@).len() > 0,
        sender_fits(sent_by(transactions@, sender@), account_for(accounts@, sender@)),
    ensures
        r is Ok <==> sender_passes(sent_by(transactions@, sender@), account_for(accounts@, sender@)),
        r matches Err(e) ==> sender_error(sent_by(transactions@, sender@), account_for(accounts@, sender@), e),
{
    let ghost u = sender@;
    let ghost ts = sent_by(transactions@, u);
    let ghost pred = sender_is(u);
    let account = find_account(accounts, sender);
    let ghost acct = account_for(accounts@, u);
    let balance = match account {
        Some(a) => a.balance,
        None => 0,
    };
    let nonce = match account {
        Some(a) => a.nonce,
        None => 0,
    };
    // the sender's transactions, by index, and the total of their amounts
    let mut idx: Vec<usize> = Vec::new();
    let mut total: u128 = 0;
    let mut k: usize = 0;
    while k < transactions.len()
        invariant
            0 <= k <= transactions@.len(),
            u == sender@,
            pred == sender_is(u),
            forall|j: int| 0 <= j < idx@.len() ==> (#[trigger] idx@[j]) < transactions@.len(),
            idx@.len() <= k,
            at_indices(transactions@, idx@) == transactions@.subrange(0, k as int).filter(pred),
            total == total_amount(transactions@.subrange(0, k as int).filter(pred)),
        decreases transactions@.len() - k,
    {
        let ghost pre = transactions@.subrange(0, k as int);
        let ghost f = pre.filter(pred);
        assert(transactions@.subrange(0, k + 1) =~= pre.push(transactions@[k as int]));
        proof {
            pre.lemma_filter_push(transactions@[k as int], pred);
            lemma_total_push(f, transactions@[k as int]);
            pre.lemma_filter_len(pred);
            assert(total <= k * 18446744073709551615) by (nonlinear_arith)
                requires
                    total <= f.len() * 18446744073709551615,
                    f.len() <= k,
            ;
            assert(k * 18446744073709551615 <= 18446744073709551615 * 18446744073709551615) by (nonlinear_arith)
                requires
                    k <= 18446744073709551615,
            ;
        }
        if eq32(&transactions[k].header.meta.sender, sender) {
            let ghost before = idx@;
            idx.push(k);
            total = total + transactions[k].header.meta.amount as u128;
            proof {
                assert(at_indices(transactions@, idx@) =~= at_indices(transactions@, before).push(
                    transactions@[k as int],
                ));
            }
        }
        k = k + 1;
    }
    proof {
        assert(transactions@.subrange(0, transactions@.len() as int) =~= transactions@);
        assert(ts == transactions@.filter(pred));
    }
    let ghost tsv = at_indices(transactions@, idx@);
    assert(tsv == ts);
    assert(total == total_amount(ts));
    assert(balance == account_balance(acct));
    assert(nonce == account_nonce(acct));
    if total > balance as u128 {
        return Err(BlockValidationError::TransactionInsufficientBalance(balance));
    }
    // each transaction on its own
    let mut m: usize = 0;
    while m < idx.len()
        invariant
            0 <= m <= idx@.len(),
            tsv == ts,
            tsv.len() == idx@.len(),
            forall|j: int| 0 <= j < idx@.len() ==> (#[trigger] idx@[j]) < transactions@.len(),
            forall|j: int| 0 <= j < idx@.len() ==> #[trigger] tsv[j] == transactions@[idx@[j] as int],
            balance == account_balance(acct),
            ts == sent_by(transactions@, sender@),
            acct == account_for(accounts@, sender@),
            total_amount(ts) <= account_balance(acct),
            match account {
                Some(a) => acct == Some(*a),
                None => acct is None,
            },
            forall|j: int| 0 <= j < m ==> passes(#[trigger] ts[j], balance),
        decreases idx@.len() - m,
    {
        let t = &transactions[idx[m]];
        assert(*t == ts[m as int]);
        match validate_transaction(t, account) {
            Err(e) => {
                proof {
                    lemma_first_failing(ts, balance, m as int);
                }
                return Err(e);
            },
            Ok(()) => {},
        }
        m = m + 1;
    }
    proof {
        lemma_first_failing(ts, balance, ts.len() as int);
    }
    // consecutive nonces from the account's nonce
    let mut nonces: Vec<u64> = Vec::new();
    let mut q: usize = 0;
    while q < idx.len()
        invariant
            0 <= q <= idx@.len(),
            tsv == ts,
            tsv.len() == idx@.len(),
            forall|j: int| 0 <= j < idx@.len() ==> (#[trigger] idx@[j]) < transactions@.len(),
            forall|j: int| 0 <= j < idx@.len() ==> #[trigger] tsv[j] == transactions@[idx@[j] as int],
            nonces@.len() == q,
            forall|j: int| 0 <= j < q ==> #[trigger] nonces@[j] == ts[j].header.meta.nonce,
        decreases idx@.len() - q,
    {
        nonces.push(transactions[idx[q]].header.meta.nonce);
        q = q + 1;
    }
    let sorted = sort_nonces(&nonces);
    proof {
        let all = ts.map_values(|t: Transaction| t.header.meta.nonce);
        assert(nonces@ =~= all);
        assert(all.sort_by(nonce_leq()) == sorted_nonces(ts));
        lemma_nonce_order();
        all.lemma_sort_by_ensures(nonce_leq());
        vstd::seq_lib::lemma_sorted_unique(sorted@, all.sort_by(nonce_leq()), nonce_leq());
        assert(sorted@ == sorted_nonces(ts));
        assert(sorted@.len() == ts.len()) by {
            broadcast use vstd::seq_lib::group_to_multiset_ensures;
            assert(sorted@.to_multiset().len() == nonces@.to_multiset().len());
        }
    }
    let ghost sn = sorted@;
    let mut g: usize = 0;
    while g + 1 < sorted.len()
        invariant
            sn == sorted@,
            sn == sorted_nonces(ts),
            sn.len() == ts.len(),
            sn.len() >= 1,
            0 <= g < sn.len(),
            forall|k2: int| 0 <= k2 < g ==> #[trigger] sn[k2] + 1 == sn[k2 + 1],
            total_amount(ts) <= account_balance(acct),
            first_failing(ts, account_balance(acct)) is None,
            sender_fits(ts, acct),
            ts == sent_by(transactions@, sender@),
            acct == account_for(accounts@, sender@),
            nonce == account_nonce(acct),
        decreases sn.len() - g,
    {
        proof {
            lemma_first_gap(sn, g as int);
        }
        if sorted[g] as u128 + 1 != sorted[g + 1] as u128 {
            return Err(BlockValidationError::TransactionNonceMismatch(sorted[g] + 1, sorted[g + 1]));
        }
        g = g + 1;
    }
    proof {
        lemma_first_gap(sn, g as int);
    }
    if sorted[0] != nonce {
        return Err(BlockValidationError::TransactionNonceMismatch(nonce, sorted[0]));
    }
    Ok(())
}

/// A transaction passes against a balance exactly when its signature is set
/// and verifies under the sender's key over the transaction's hash, that hash
/// is the SHA3-256 hash of its header, and the balance covers its amount.
pub proof fn lemma_transaction_passes(t: Transaction, balance: u64)
    ensures
        passes(t, balance) <==> {
            &&& t.signature@ != zero64()
            &&& ed25519_verifies(t.header.meta.sender@, t.hash@, t.signature@)
            &&& t.hash@ == sha3_256_digest(header_hash_bytes(t.header))
            &&& t.header.meta.amount <= balance
        },
        signed_by_sender(t) <==> t.signature@ != zero64() && ed25519_verifies(t.header.meta.sender@, t.hash@, t.signature@),
        hash_matches(t) <==> t.hash@ == sha3_256_digest(header_hash_bytes(t.header)),
{
}

/// No transaction fails exactly when every one passes.
pub proof fn lemma_first_failing_none(ts: Seq<Transaction>, balance: u64)
    ensures
        first_failing(ts, balance) is None <==> forall|i: int| 0 <= i < ts.len() ==> passes(#[trigger] ts[i], balance),
    decreases ts.len(),
{
    if ts.len() > 0 {
        lemma_first_failing_none(ts.drop_first(), balance);
        assert forall|i: int| 0 < i < ts.len() implies #[trigger] ts[i] == ts.drop_first()[i - 1] by {}
        if forall|i: int| 0 <= i < ts.len() ==> passes(#[trigger] ts[i], balance) {
            assert forall|i: int| 0 <= i < ts.drop_first().len() implies passes(#[trigger] ts.drop_first()[i], balance) by {
                assert(ts.drop_first()[i] == ts[i + 1]);
            }
        }
    }
}

/// Increasing nonces have no gap exactly when each is one more than the
/// one before: they run from the first one up.
pub proof fn lemma_first_gap_none(s: Seq<u64>)
    requires
        s.len() >= 1,
    ensures
        first_gap(s) is None <==> forall|i: int| 0 <= i < s.len() ==> #[trigger] s[i] == s[0] + i,
    decreases s.len(),
{
    if s.len() >= 2 {
        let t = s.drop_first();
        lemma_first_gap_none(t);
        assert forall|i: int| 0 < i < s.len() implies #[trigger] s[i] == t[i - 1] by {}
        if forall|i: int| 0 <= i < s.len() ==> #[trigger] s[i] == s[0] + i {
            assert(s[1] == s[0] + 1);
            assert forall|i: int| 0 <= i < t.len() implies #[trigger] t[i] == t[0] + i by {
                assert(t[i] == s[i + 1]);
            }
        }
        if s[0] + 1 == s[1] && first_gap(t) is None {
            assert forall|i: int| 0 <= i < s.len() implies #[trigger] s[i] == s[0] + i by {
                if i > 0 {
                    assert(t[i - 1] == t[0] + (i - 1));
                }
            }
        }
    }
}

/// The transactions of one sender pass against its account exactly when the
/// balance covers their total, each passes on its own against that balance,
/// and their nonces, in increasing order, run one by one from the account's
/// nonce.
pub proof fn lemma_sender_passes(ts: Seq<Transaction>, account: Option<Account>)
    requires
        ts.len() > 0,
    ensures
        sorted_nonces(ts).len() == ts.len(),
        sender_passes(ts, account) <==> {
            &&& total_amount(ts) <= account_balance(account)
            &&& forall|i: int| 0 <= i < ts.len() ==> passes(#[trigger] ts[i], account_balance(account))
            &&& forall|i: int| 0 <= i < ts.len() ==> #[trigger] sorted_nonces(ts)[i] == account_nonce(account) + i
        },
{
    let ns = ts.map_values(|t: Transaction| t.header.meta.nonce);
    lemma_nonce_order();
    ns.lemma_sort_by_ensures(nonce_leq());
    ns.to_multiset_ensures();
    ns.sort_by(nonce_leq()).to_multiset_ensures();
    assert(sorted_nonces(ts).len() == ts.len());
    lemma_first_failing_none(ts, account_balance(account));
    lemma_first_gap_none(sorted_nonces(ts));
}

} // verus!
