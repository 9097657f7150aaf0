//! The ledger service: account records and PIN-authorized mutations.

use crate::luhn::all_digit_chars;
use crate::luhn::char_digit;
use crate::luhn::digit_chars;
use crate::luhn::is_digit_char;
use crate::luhn::AccountNumber;
use vstd::prelude::*;
use vstd::string::*;

verus! {

/// Why a ledger operation was refused. No mutation takes place when an
/// operation returns one of these.
#[derive(Clone, Copy, Debug, PartialEq, Eq, Structural)]
pub enum LedgerError {
    /// The supplied PIN does not match the stored PIN.
    AuthorizationFailure,
    /// The amount exceeds the available balance.
    InsufficientFunds,
    /// No account carries the given account number.
    NotFound,
    /// A malformed account number or an unparsable amount.
    InvalidFormat,
    /// A transfer whose source and destination are the same account.
    SameAccountTransfer,
    /// A balance or identifier update that would wrap around.
    ArithmeticOverflow,
}

/// An account record: ledger-assigned identifier, rendered account
/// number, authorization PIN, and balance in minor currency units.
#[derive(Debug)]
pub struct Account {
    pub id: u64,
    pub account_number: String,
    pub balance: u64,
    pub pin: String,
}

/// The mathematical model of an account record.
pub struct AccountModel {
    pub id: u64,
    pub number: Seq<char>,
    pub pin: Seq<char>,
    pub balance: u64,
}

impl View for Account {
    type V = AccountModel;

    open spec fn view(&self) -> AccountModel {
        AccountModel {
            id: self.id,
            number: self.account_number@,
            pin: self.pin@,
            balance: self.balance,
        }
    }
}

/// The index of the first account carrying `number`, or -1 when none does.
pub open spec fn spec_find(s: Seq<AccountModel>, number: Seq<char>) -> int
    decreases s.len(),
{
    if s.len() == 0 {
        -1
    } else if s[0].number == number {
        0
    } else {
        let r = spec_find(s.subrange(1, s.len() as int), number);
        if r == -1 {
            -1
        } else {
            r + 1
        }
    }
}

/// `spec_find` returns -1 exactly when no account carries the number,
/// and otherwise the first index that does.
pub proof fn lemma_spec_find(s: Seq<AccountModel>, number: Seq<char>)
    ensures
        spec_find(s, number) == -1 ==> forall|j: int| 0 <= j < s.len() ==> s[j].number != number,
        spec_find(s, number) != -1 ==> {
            &&& 0 <= spec_find(s, number) < s.len()
            &&& s[spec_find(s, number)].number == number
            &&& forall|j: int| 0 <= j < spec_find(s, number) ==> s[j].number != number
        },
    decreases s.len(),
{
    if s.len() > 0 && s[0].number != number {
        let rest = s.subrange(1, s.len() as int);
        lemma_spec_find(rest, number);
        if spec_find(s, number) == -1 {
            assert forall|j: int| 0 <= j < s.len() implies s[j].number != number by {
                if j > 0 {
                    assert(s[j] == rest[j - 1]);
                }
            }
        } else {
            let r = spec_find(rest, number);
            assert(s[r + 1] == rest[r]);
            assert forall|j: int| 0 <= j < r + 1 implies s[j].number != number by {
                if j > 0 {
                    assert(s[j] == rest[j - 1]);
                }
            }
        }
    }
}

/// The largest identifier in use, or 0 for an empty ledger.
pub open spec fn spec_max_id(s: Seq<AccountModel>) -> u64
    decreases s.len(),
{
    if s.len() == 0 {
        0
    } else {
        let m = spec_max_id(s.drop_last());
        if s.last().id > m {
            s.last().id
        } else {
            m
        }
    }
}

/// Every identifier in use is at most `spec_max_id`, and a non-zero
/// maximum is in use.
pub proof fn lemma_max_id(s: Seq<AccountModel>)
    ensures
        forall|j: int| 0 <= j < s.len() ==> s[j].id <= spec_max_id(s),
        spec_max_id(s) == 0 || exists|j: int| 0 <= j < s.len() && s[j].id == spec_max_id(s),
    decreases s.len(),
{
    if s.len() > 0 {
        lemma_max_id(s.drop_last());
        assert(forall|j: int| 0 <= j < s.len() - 1 ==> s[j] == s.drop_last()[j]);
        let m = spec_max_id(s.drop_last());
        if s.last().id <= m && m != 0 {
            let j = choose|j: int| 0 <= j < s.len() - 1 && s.drop_last()[j].id == m;
            assert(s[j].id == spec_max_id(s));
        }
    }
}

/// The sum of all balances in the ledger.
pub open spec fn spec_total(s: Seq<AccountModel>) -> int
    decreases s.len(),
{
    if s.len() == 0 {
        0
    } else {
        spec_total(s.drop_last()) + s.last().balance
    }
}

/// Replacing one record changes the total by the difference of the two
/// balances.
pub proof fn lemma_total_update(s: Seq<AccountModel>, i: int, a: AccountModel)
    requires
        0 <= i < s.len(),
    ensures
        spec_total(s.update(i, a)) == spec_total(s) - s[i].balance + a.balance,
    decreases s.len(),
{
    let n = s.len() as int;
    if i == n - 1 {
        assert(s.update(i, a).drop_last() =~= s.drop_last());
        assert(s.update(i, a).last() == a);
    } else {
        assert(s.update(i, a).drop_last() =~= s.drop_last().update(i, a));
        assert(s.update(i, a).last() == s.last());
        lemma_total_update(s.drop_last(), i, a);
    }
}

/// No two records share an identifier.
pub open spec fn wf_ids(s: Seq<AccountModel>) -> bool {
    forall|i: int, j: int| 0 <= i < j < s.len() ==> s[i].id != s[j].id
}

/// The set of identifiers in use.
pub open spec fn ids(s: Seq<AccountModel>) -> Set<u64> {
    Set::new(|k: u64| exists|j: int| 0 <= j < s.len() && s[j].id == k)
}

/// Account creation never hands out a duplicate identifier: one
/// creation on a ledger whose identifiers are exactly `{1..n}` yields a
/// ledger whose identifiers are exactly `{1..n+1}`, the shape
/// `create_account` guarantees. By induction from the empty ledger, the
/// identifiers after any number of creations (absent deletions) are
/// exactly `{1..N}`.
pub proof fn lemma_ids_after_create(pre: Seq<AccountModel>, post: Seq<AccountModel>, n: u64)
    requires
        ids(pre) == Set::new(|k: u64| 1 <= k <= n),
        n < u64::MAX,
        post.len() == pre.len() + 1,
        forall|j: int| 0 <= j < pre.len() ==> post[j] == pre[j],
        post.last().id == spec_max_id(pre) + 1,
    ensures
        ids(post) == Set::new(|k: u64| 1 <= k <= n + 1),
        forall|j: int| 0 <= j < pre.len() ==> post[j].id != post.last().id,
{
    lemma_max_id(pre);
    assert forall|j: int| 0 <= j < pre.len() implies 1 <= #[trigger] pre[j].id <= n by {
        assert(ids(pre).contains(pre[j].id));
    }
    if n == 0 {
        assert(pre.len() == 0);
        assert(spec_max_id(pre) == 0);
    } else {
        assert(Set::new(|k: u64| 1 <= k <= n).contains(n));
        assert(ids(pre).contains(n));
        assert(spec_max_id(pre) >= n);
        let m = spec_max_id(pre);
        assert(m != 0);
        let j = choose|j: int| 0 <= j < pre.len() && pre[j].id == m;
        assert(ids(pre).contains(m));
        assert(m <= n);
    }
    assert(spec_max_id(pre) == n);
    let last = pre.len() as int;
    assert(post[last].id == n + 1);
    assert forall|k: u64| ids(post).contains(k) implies 1 <= k <= n + 1 by {
        let j = choose|j: int| 0 <= j < post.len() && post[j].id == k;
        if j < last {
            assert(ids(pre).contains(k));
        }
    }
    assert forall|k: u64| 1 <= k <= n + 1 implies ids(post).contains(k) by {
        if k <= n {
            assert(ids(pre).contains(k));
            let j = choose|j: int| 0 <= j < pre.len() && pre[j].id == k;
            assert(post[j].id == k);
        } else {
            assert(post[last].id == k);
        }
    }
    assert(ids(post) =~= Set::new(|k: u64| 1 <= k <= n + 1));
}

/// The numeric value of a decimal digit string.
pub open spec fn amount_val(s: Seq<char>) -> int
    decreases s.len(),
{
    if s.len() == 0 {
        0
    } else {
        amount_val(s.drop_last()) * 10 + char_digit(s.last())
    }
}

/// A string parses as an amount when it is non-empty, all decimal
/// digits, and its value fits the balance type.
pub open spec fn is_amount_string(s: Seq<char>) -> bool {
    &&& s.len() >= 1
    &&& all_digit_chars(s)
    &&& amount_val(s) <= u64::MAX
}

/// The value of a digit string is non-negative and no smaller than the
/// value of any of its prefixes.
proof fn lemma_amount_val_prefix(s: Seq<char>, i: int)
    requires
        all_digit_chars(s),
        0 <= i <= s.len(),
    ensures
        0 <= amount_val(s.subrange(0, i)) <= amount_val(s),
    decreases s.len() - i,
{
    if i == s.len() {
        assert(s.subrange(0, i) =~= s);
        lemma_amount_val_nonneg(s);
    } else {
        lemma_amount_val_prefix(s, i + 1);
        let pre = s.subrange(0, i);
        let post = s.subrange(0, i + 1);
        assert(post.drop_last() =~= pre);
        lemma_amount_val_nonneg(pre);
    }
}

/// The value of a digit string is non-negative.
proof fn lemma_amount_val_nonneg(s: Seq<char>)
    requires
        all_digit_chars(s),
    ensures
        amount_val(s) >= 0,
    decreases s.len(),
{
    if s.len() > 0 {
        lemma_amount_val_nonneg(s.drop_last());
    }
}

/// Compares two strings character by character.
fn str_eq(a: &str, b: &str) -> (r: bool)
    ensures
        r == (a@ == b@),
{
    let na = a.unicode_len();
    let nb = b.unicode_len();
    if na != nb {
        return false;
    }
    let mut i: usize = 0;
    while i < na
        invariant
            i <= na,
            na == a@.len(),
            na == b@.len(),
            forall|j: int| 0 <= j < i ==> a@[j] == b@[j],
        decreases na - i,
    {
        if a.get_char(i) != b.get_char(i) {
            return false;
        }
        i = i + 1;
    }
    proof {
        assert(a@ =~= b@);
    }
    true
}

/// Parses a decimal amount string into minor currency units; rejects
/// anything that is not a digit string whose value fits the balance
/// type.
pub fn parse_amount(s: &str) -> (r: Result<u64, LedgerError>)
    ensures
        is_amount_string(s@) ==> r == Ok::<u64, LedgerError>(amount_val(s@) as u64),
        !is_amount_string(s@) ==> r == Err::<u64, LedgerError>(LedgerError::InvalidFormat),
{
    let n = s.unicode_len();
    if n == 0 {
        return Err(LedgerError::InvalidFormat);
    }
    let mut acc: u64 = 0;
    let mut i: usize = 0;
    while i < n
        invariant
            i <= n,
            n == s@.len(),
            n >= 1,
            forall|j: int| 0 <= j < i ==> is_digit_char(s@[j]),
            acc == amount_val(s@.subrange(0, i as int)),
        decreases n - i,
    {
        let c = s.get_char(i);
        let d = match crate::luhn::char_to_digit(c) {
            Some(d) => d,
            None => {
                return Err(LedgerError::InvalidFormat);
            },
        };
        proof {
            assert(s@.subrange(0, i + 1).drop_last() =~= s@.subrange(0, i as int));
        }
        let shifted = match acc.checked_mul(10) {
            Some(x) => x,
            None => {
                proof {
                    lemma_overflow_prefix(s@, i + 1);
                }
                return Err(LedgerError::InvalidFormat);
            },
        };
        acc = match shifted.checked_add(d as u64) {
            Some(x) => x,
            None => {
                proof {
                    lemma_overflow_prefix(s@, i + 1);
                }
                return Err(LedgerError::InvalidFormat);
            },
        };
        i = i + 1;
    }
    proof {
        assert(s@.subrange(0, n as int) =~= s@);
    }
    Ok(acc)
}

/// A prefix whose value exceeds the balance type rules out the whole
/// string as an amount, provided its digits seen so far are digits.
proof fn lemma_overflow_prefix(s: Seq<char>, i: int)
    requires
        0 <= i <= s.len(),
        forall|j: int| 0 <= j < i ==> is_digit_char(s[j]),
        amount_val(s.subrange(0, i)) > u64::MAX,
    ensures
        !is_amount_string(s),
{
    if all_digit_chars(s) {
        lemma_amount_val_prefix(s, i);
    }
}

/// The state and result of a deposit: find the account, authorize,
/// parse the amount, and add it to the balance without wraparound.
pub open spec fn spec_deposit(
    s: Seq<AccountModel>,
    amount: Seq<char>,
    pin: Seq<char>,
    number: Seq<char>,
) -> (Seq<AccountModel>, Result<u64, LedgerError>) {
    let i = spec_find(s, number);
    if i == -1 {
        (s, Err(LedgerError::NotFound))
    } else if s[i].pin != pin {
        (s, Err(LedgerError::AuthorizationFailure))
    } else if !is_amount_string(amount) {
        (s, Err(LedgerError::InvalidFormat))
    } else if s[i].balance + amount_val(amount) > u64::MAX {
        (s, Err(LedgerError::ArithmeticOverflow))
    } else {
        let nb = (s[i].balance + amount_val(amount)) as u64;
        (
            s.update(i, AccountModel { id: s[i].id, number: s[i].number, pin: s[i].pin, balance: nb }),
            Ok(nb),
        )
    }
}

/// The state and result of a withdrawal: find the account, authorize,
/// parse the amount, and subtract it unless it exceeds the balance.
pub open spec fn spec_withdraw(
    s: Seq<AccountModel>,
    amount: Seq<char>,
    pin: Seq<char>,
    number: Seq<char>,
) -> (Seq<AccountModel>, Result<u64, LedgerError>) {
    let i = spec_find(s, number);
    if i == -1 {
        (s, Err(LedgerError::NotFound))
    } else if s[i].pin != pin {
        (s, Err(LedgerError::AuthorizationFailure))
    } else if !is_amount_string(amount) {
        (s, Err(LedgerError::InvalidFormat))
    } else if amount_val(amount) > s[i].balance {
        (s, Err(LedgerError::InsufficientFunds))
    } else {
        let nb = (s[i].balance - amount_val(amount)) as u64;
        (
            s.update(i, AccountModel { id: s[i].id, number: s[i].number, pin: s[i].pin, balance: nb }),
            Ok(nb),
        )
    }
}

/// The state and result of a transfer: self-transfers are rejected
/// before any lookup; then the source is found and authorized, the
/// amount parsed and checked against the source balance, and the
/// destination found; both balances move as one atomic unit.
pub open spec fn spec_transfer(
    s: Seq<AccountModel>,
    amount: Seq<char>,
    pin: Seq<char>,
    number1: Seq<char>,
    number2: Seq<char>,
) -> (Seq<AccountModel>, Result<u64, LedgerError>) {
    if number1 == number2 {
        (s, Err(LedgerError::SameAccountTransfer))
    } else {
        let i = spec_find(s, number1);
        if i == -1 {
            (s, Err(LedgerError::NotFound))
        } else if s[i].pin != pin {
            (s, Err(LedgerError::AuthorizationFailure))
        } else if !is_amount_string(amount) {
            (s, Err(LedgerError::InvalidFormat))
        } else if amount_val(amount) > s[i].balance {
            (s, Err(LedgerError::InsufficientFunds))
        } else {
            let j = spec_find(s, number2);
            if j == -1 {
                (s, Err(LedgerError::NotFound))
            } else if s[j].balance + amount_val(amount) > u64::MAX {
                (s, Err(LedgerError::ArithmeticOverflow))
            } else {
                let a = amount_val(amount);
                let src = AccountModel {
                    id: s[i].id,
                    number: s[i].number,
                    pin: s[i].pin,
                    balance: (s[i].balance - a) as u64,
                };
                let dst = AccountModel {
                    id: s[j].id,
                    number: s[j].number,
                    pin: s[j].pin,
                    balance: (s[j].balance + a) as u64,
                };
                (s.update(i, src).update(j, dst), Ok((s[i].balance - a) as u64))
            }
        }
    }
}

/// The state and result of a deletion: find the account, authorize,
/// and remove the record.
pub open spec fn spec_delete(s: Seq<AccountModel>, number: Seq<char>, pin: Seq<char>) -> (
    Seq<AccountModel>,
    Result<(), LedgerError>,
) {
    let i = spec_find(s, number);
    if i == -1 {
        (s, Err(LedgerError::NotFound))
    } else if s[i].pin != pin {
        (s, Err(LedgerError::AuthorizationFailure))
    } else {
        (s.remove(i), Ok(()))
    }
}

/// The ledger service: owns the account records and performs the
/// authorized mutations on them.
#[derive(Debug)]
pub struct Ledger {
    accounts: Vec<Account>,
}

impl View for Ledger {
    type V = Seq<AccountModel>;

    closed spec fn view(&self) -> Seq<AccountModel> {
        self.accounts@.map_values(|a: Account| a@)
    }
}

impl Ledger {
    /// No two records of the ledger share an identifier.
    pub open spec fn wf(&self) -> bool {
        wf_ids(self@)
    }

    /// An empty ledger.
    pub fn new() -> (l: Ledger)
        ensures
            l@ == Seq::<AccountModel>::empty(),
            l.wf(),
    {
        let l = Ledger { accounts: Vec::new() };
        proof {
            assert(l@ =~= Seq::<AccountModel>::empty());
        }
        l
    }

    /// The number of accounts on the ledger.
    pub fn len(&self) -> (n: usize)
        ensures
            n == self@.len(),
    {
        self.accounts.len()
    }

    /// A ledger over the given records, as loaded back from a store.
    pub fn from_accounts(accounts: Vec<Account>) -> (l: Ledger)
        ensures
            l@ == accounts@.map_values(|a: Account| a@),
    {
        Ledger { accounts }
    }

    /// The account records, e.g. for persisting to a store.
    pub fn accounts(&self) -> (r: &Vec<Account>)
        ensures
            r@.map_values(|a: Account| a@) == self@,
    {
        &self.accounts
    }

    /// The index of the first account carrying `number`, if any.
    fn find_account(&self, number: &str) -> (r: Option<usize>)
        ensures
            r is None <==> spec_find(self@, number@) == -1,
            r matches Some(i) ==> i as int == spec_find(self@, number@) && i < self@.len(),
    {
        let n = self.accounts.len();
        let mut i: usize = 0;
        while i < n
            invariant
                i <= n,
                n == self.accounts@.len(),
                self@.len() == n,
                forall|j: int| 0 <= j < i ==> self@[j].number != number@,
            decreases n - i,
        {
            proof {
                assert(self@[i as int] == self.accounts@[i as int]@);
            }
            if str_eq(self.accounts[i].account_number.as_str(), number) {
                proof {
                    lemma_spec_find(self@, number@);
                }
                return Some(i);
            }
            i = i + 1;
        }
        proof {
            lemma_spec_find(self@, number@);
        }
        None
    }

    /// The first account carrying `account`, if any.
    pub fn fetch_account(&self, account: &str) -> (r: Option<&Account>)
        ensures
            r is None <==> spec_find(self@, account@) == -1,
            r matches Some(a) ==> a@ == self@[spec_find(self@, account@)],
    {
        match self.find_account(account) {
            Some(i) => Some(&self.accounts[i]),
            None => None,
        }
    }

    /// The balance of the account carrying `account_number`.
    pub fn show_balance(&self, account_number: &str) -> (r: Result<u64, LedgerError>)
        ensures
            spec_find(self@, account_number@) == -1 ==> r == Err::<u64, LedgerError>(
                LedgerError::NotFound,
            ),
            spec_find(self@, account_number@) != -1 ==> r == Ok::<u64, LedgerError>(
                self@[spec_find(self@, account_number@)].balance,
            ),
    {
        match self.find_account(account_number) {
            Some(i) => Ok(self.accounts[i].balance),
            None => Err(LedgerError::NotFound),
        }
    }

    /// Creates an account: the next free identifier (one past the
    /// largest in use), the rendered account number, a fresh random
    /// six-digit PIN, and the requested opening balance.
    pub fn create_account(&mut self, data: &AccountNumber, balance: u64) -> (r: Result<
        u64,
        LedgerError,
    >)
        ensures
            spec_max_id(old(self)@) == u64::MAX ==> r == Err::<u64, LedgerError>(
                LedgerError::ArithmeticOverflow,
            ) && final(self)@ == old(self)@,
            spec_max_id(old(self)@) < u64::MAX ==> {
                &&& r == Ok::<u64, LedgerError>((spec_max_id(old(self)@) + 1) as u64)
                &&& final(self)@.len() == old(self)@.len() + 1
                &&& forall|j: int| 0 <= j < old(self)@.len() ==> final(self)@[j] == old(self)@[j]
                &&& final(self)@.last().id == spec_max_id(old(self)@) + 1
                &&& final(self)@.last().number == digit_chars(data.digits())
                &&& final(self)@.last().balance == balance
                &&& final(self)@.last().pin.len() == 6
                &&& all_digit_chars(final(self)@.last().pin)
                &&& forall|j: int|
                    0 <= j < old(self)@.len() ==> final(self)@[j].id < final(self)@.last().id
            },
            old(self).wf() ==> final(self).wf(),
    {
        let n = self.accounts.len();
        let mut max: u64 = 0;
        let mut i: usize = 0;
        while i < n
            invariant
                i <= n,
                n == self.accounts@.len(),
                self@.len() == n,
                max == spec_max_id(self@.subrange(0, i as int)),
            decreases n - i,
        {
            proof {
                assert(self@[i as int] == self.accounts@[i as int]@);
                assert(self@.subrange(0, i + 1).drop_last() =~= self@.subrange(0, i as int));
            }
            if self.accounts[i].id > max {
                max = self.accounts[i].id;
            }
            i = i + 1;
        }
        proof {
            assert(self@.subrange(0, n as int) =~= self@);
        }
        if max == u64::MAX {
            return Err(LedgerError::ArithmeticOverflow);
        }
        let id = max + 1;
        let account_number = data.human_readable();
        let pin = random_pin();
        let ghost pre = self@;
        let account = Account { id, account_number, balance, pin };
        let ghost model = account@;
        self.accounts.push(account);
        proof {
            assert(self@ =~= pre.push(model));
            lemma_max_id(pre);
            assert(forall|j: int| 0 <= j < pre.len() ==> pre[j].id < id);
            if wf_ids(pre) {
                assert(wf_ids(self@));
            }
        }
        Ok(id)
    }

    /// Deposits an amount into the account carrying `account_number`,
    /// after PIN authorization.
    pub fn deposit(&mut self, amount: &str, pin: &str, account_number: &str) -> (r: Result<
        u64,
        LedgerError,
    >)
        ensures
            final(self)@ == spec_deposit(old(self)@, amount@, pin@, account_number@).0,
            r == spec_deposit(old(self)@, amount@, pin@, account_number@).1,
    {
        let idx = match self.find_account(account_number) {
            Some(i) => i,
            None => {
                return Err(LedgerError::NotFound);
            },
        };
        proof {
            assert(self@[idx as int] == self.accounts@[idx as int]@);
        }
        if !str_eq(self.accounts[idx].pin.as_str(), pin) {
            return Err(LedgerError::AuthorizationFailure);
        }
        let a = match parse_amount(amount) {
            Ok(a) => a,
            Err(e) => {
                return Err(e);
            },
        };
        proof {
            lemma_amount_val_nonneg(amount@);
        }
        let bal = self.accounts[idx].balance;
        if bal > u64::MAX - a {
            return Err(LedgerError::ArithmeticOverflow);
        }
        let nb = bal + a;
        let ghost pre = self@;
        let updated = Account {
            id: self.accounts[idx].id,
            account_number: self.accounts[idx].account_number.clone(),
            balance: nb,
            pin: self.accounts[idx].pin.clone(),
        };
        let ghost model = updated@;
        self.accounts[idx] = updated;
        proof {
            assert(self@ =~= pre.update(idx as int, model));
        }
        Ok(nb)
    }

    /// Withdraws an amount from the account carrying `account_number`,
    /// after PIN authorization; the balance never goes negative.
    pub fn withdraw(&mut self, amount: &str, pin: &str, account_number: &str) -> (r: Result<
        u64,
        LedgerError,
    >)
        ensures
            final(self)@ == spec_withdraw(old(self)@, amount@, pin@, account_number@).0,
            r == spec_withdraw(old(self)@, amount@, pin@, account_number@).1,
    {
        let idx = match self.find_account(account_number) {
            Some(i) => i,
            None => {
                return Err(LedgerError::NotFound);
            },
        };
        proof {
            assert(self@[idx as int] == self.accounts@[idx as int]@);
        }
        if !str_eq(self.accounts[idx].pin.as_str(), pin) {
            return Err(LedgerError::AuthorizationFailure);
        }
        let a = match parse_amount(amount) {
            Ok(a) => a,
            Err(e) => {
                return Err(e);
            },
        };
        proof {
            lemma_amount_val_nonneg(amount@);
        }
        let bal = self.accounts[idx].balance;
        if a > bal {
            return Err(LedgerError::InsufficientFunds);
        }
        let nb = bal - a;
        let ghost pre = self@;
        let updated = Account {
            id: self.accounts[idx].id,
            account_number: self.accounts[idx].account_number.clone(),
            balance: nb,
            pin: self.accounts[idx].pin.clone(),
        };
        let ghost model = updated@;
        self.accounts[idx] = updated;
        proof {
            assert(self@ =~= pre.update(idx as int, model));
        }
        Ok(nb)
    }

    /// Moves an amount between two distinct accounts as one atomic
    /// unit, after PIN authorization against the source account. The
    /// total ledger value is conserved, whether or not the transfer
    /// goes through.
    pub fn transfer(
        &mut self,
        amount: &str,
        pin: &str,
        account_number1: &str,
        account_number2: &str,
    ) -> (r: Result<u64, LedgerError>)
        ensures
            final(self)@ == spec_transfer(
                old(self)@,
                amount@,
                pin@,
                account_number1@,
                account_number2@,
            ).0,
            r == spec_transfer(old(self)@, amount@, pin@, account_number1@, account_number2@).1,
            spec_total(final(self)@) == spec_total(old(self)@),
            account_number1@ == account_number2@ ==> r == Err::<u64, LedgerError>(
                LedgerError::SameAccountTransfer,
            ) && final(self)@ == old(self)@,
    {
        if str_eq(account_number1, account_number2) {
            return Err(LedgerError::SameAccountTransfer);
        }
        let i = match self.find_account(account_number1) {
            Some(i) => i,
            None => {
                return Err(LedgerError::NotFound);
            },
        };
        proof {
            assert(self@[i as int] == self.accounts@[i as int]@);
        }
        if !str_eq(self.accounts[i].pin.as_str(), pin) {
            return Err(LedgerError::AuthorizationFailure);
        }
        let a = match parse_amount(amount) {
            Ok(a) => a,
            Err(e) => {
                return Err(e);
            },
        };
        proof {
            lemma_amount_val_nonneg(amount@);
        }
        let src_bal = self.accounts[i].balance;
        if a > src_bal {
            return Err(LedgerError::InsufficientFunds);
        }
        let j = match self.find_account(account_number2) {
            Some(j) => j,
            None => {
                return Err(LedgerError::NotFound);
            },
        };
        proof {
            assert(self@[j as int] == self.accounts@[j as int]@);
            lemma_spec_find(self@, account_number1@);
            lemma_spec_find(self@, account_number2@);
            assert(i != j);
        }
        let dst_bal = self.accounts[j].balance;
        if dst_bal > u64::MAX - a {
            return Err(LedgerError::ArithmeticOverflow);
        }
        let ghost pre = self@;
        let src = Account {
            id: self.accounts[i].id,
            account_number: self.accounts[i].account_number.clone(),
            balance: src_bal - a,
            pin: self.accounts[i].pin.clone(),
        };
        let ghost src_model = src@;
        self.accounts[i] = src;
        let dst = Account {
            id: self.accounts[j].id,
            account_number: self.accounts[j].account_number.clone(),
            balance: dst_bal + a,
            pin: self.accounts[j].pin.clone(),
        };
        let ghost dst_model = dst@;
        self.accounts[j] = dst;
        proof {
            assert(self@ =~= pre.update(i as int, src_model).update(j as int, dst_model));
            lemma_total_update(pre, i as int, src_model);
            lemma_total_update(pre.update(i as int, src_model), j as int, dst_model);
            assert(pre.update(i as int, src_model)[j as int] == pre[j as int]);
        }
        Ok(src_bal - a)
    }

    /// Removes the account carrying `account_number`, after PIN
    /// authorization.
    pub fn delete_account(&mut self, account_number: &str, pin: &str) -> (r: Result<
        (),
        LedgerError,
    >)
        ensures
            final(self)@ == spec_delete(old(self)@, account_number@, pin@).0,
            r == spec_delete(old(self)@, account_number@, pin@).1,
    {
        let idx = match self.find_account(account_number) {
            Some(i) => i,
            None => {
                return Err(LedgerError::NotFound);
            },
        };
        proof {
            assert(self@[idx as int] == self.accounts@[idx as int]@);
        }
        if !str_eq(self.accounts[idx].pin.as_str(), pin) {
            return Err(LedgerError::AuthorizationFailure);
        }
        let ghost pre = self@;
        self.accounts.remove(idx);
        proof {
            assert(self@ =~= pre.remove(idx as int));
        }
        Ok(())
    }
}

/// A fresh six-digit random PIN.
fn random_pin() -> (r: String)
    ensures
        r@.len() == 6,
        all_digit_chars(r@),
{
    let mut s = String::new();
    let mut i: usize = 0;
    while i < 6
        invariant
            i <= 6,
            s@.len() == i,
            all_digit_chars(s@),
        decreases 6 - i,
    {
        let d = crate::luhn::random_digit();
        s.append(crate::luhn::digit_to_str(d));
        i = i + 1;
    }
    s
}

} // verus!
