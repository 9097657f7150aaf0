//! Self-checking account numbers: a digit payload plus a Luhn check digit.

use crate::ledger::LedgerError;
use rand::Rng;
use vstd::prelude::*;
use vstd::string::*;

verus! {

/// Luhn doubling of a single digit: doubled, and reduced by 9 when the
/// doubling carries into two digits.
pub open spec fn double_digit(d: u8) -> int {
    if 2 * (d as int) >= 10 {
        2 * (d as int) - 9
    } else {
        2 * (d as int)
    }
}

/// Contribution of one digit to the Luhn sum, depending on whether it
/// sits in a doubled position.
pub open spec fn luhn_contrib(d: u8, doubled: bool) -> int {
    if doubled {
        double_digit(d)
    } else {
        d as int
    }
}

/// Luhn sum of a digit sequence, consumed from the right; `doubled`
/// says whether the rightmost digit of `s` sits in a doubled position.
pub open spec fn luhn_sum_from(s: Seq<u8>, doubled: bool) -> int
    decreases s.len(),
{
    if s.len() == 0 {
        0
    } else {
        luhn_contrib(s.last(), doubled) + luhn_sum_from(s.drop_last(), !doubled)
    }
}

/// Luhn sum of a payload: the rightmost payload digit is doubled.
pub open spec fn luhn_sum(payload: Seq<u8>) -> int {
    luhn_sum_from(payload, true)
}

/// The check digit that makes the payload's Luhn sum plus the check
/// digit a multiple of 10.
pub open spec fn luhn_check_digit(payload: Seq<u8>) -> int {
    (10 - luhn_sum(payload) % 10) % 10
}

/// Whether every element is a decimal digit.
pub open spec fn all_digits(s: Seq<u8>) -> bool {
    forall|i: int| 0 <= i < s.len() ==> s[i] <= 9
}

/// A digit sequence is a valid identifier when it is non-empty and its
/// last digit is the Luhn check digit of the digits before it.
pub open spec fn valid_identifier(s: Seq<u8>) -> bool {
    &&& s.len() >= 1
    &&& all_digits(s)
    &&& s.last() == luhn_check_digit(s.drop_last())
}

/// Computes the Luhn check digit of a digit payload.
#[verifier::rlimit(50)]
pub fn get_check_digit(payload: &[u8]) -> (d: u8)
    requires
        all_digits(payload@),
    ensures
        d == luhn_check_digit(payload@),
        d <= 9,
{
    let n = payload.len();
    let mut acc: u64 = 0;
    let mut i: usize = 0;
    while i < n
        invariant
            i <= n,
            n == payload@.len(),
            all_digits(payload@),
            acc <= 9,
            acc == luhn_sum_from(payload@.subrange(0, i as int), (n - i) % 2 == 0) % 10,
        decreases n - i,
    {
        let doubled = (n - i) % 2 == 1;
        let d = payload[i];
        let c: u64 = if doubled {
            if 2 * d >= 10 {
                (2 * d - 9) as u64
            } else {
                (2 * d) as u64
            }
        } else {
            d as u64
        };
        proof {
            let pre = payload@.subrange(0, i as int);
            let post = payload@.subrange(0, i + 1);
            assert(post.drop_last() =~= pre);
            assert(post.last() == payload@[i as int]);
            assert(c == luhn_contrib(payload@[i as int], (n - i) % 2 == 1));
            vstd::arithmetic::div_mod::lemma_add_mod_noop(
                luhn_sum_from(pre, (n - i) % 2 == 0),
                c as int,
                10,
            );
        }
        acc = (acc + c) % 10;
        i = i + 1;
    }
    proof {
        assert(payload@.subrange(0, n as int) =~= payload@);
    }
    (10 - acc as u8) % 10
}

/// Whether a character is a decimal digit.
pub open spec fn is_digit_char(c: char) -> bool {
    c == '0' || c == '1' || c == '2' || c == '3' || c == '4' || c == '5' || c == '6' || c == '7'
        || c == '8' || c == '9'
}

/// The digit value of a decimal digit character.
pub open spec fn char_digit(c: char) -> u8 {
    if c == '0' {
        0
    } else if c == '1' {
        1
    } else if c == '2' {
        2
    } else if c == '3' {
        3
    } else if c == '4' {
        4
    } else if c == '5' {
        5
    } else if c == '6' {
        6
    } else if c == '7' {
        7
    } else if c == '8' {
        8
    } else {
        9
    }
}

/// The decimal digit character of a digit value.
pub open spec fn digit_char(d: u8) -> char {
    if d == 0 {
        '0'
    } else if d == 1 {
        '1'
    } else if d == 2 {
        '2'
    } else if d == 3 {
        '3'
    } else if d == 4 {
        '4'
    } else if d == 5 {
        '5'
    } else if d == 6 {
        '6'
    } else if d == 7 {
        '7'
    } else if d == 8 {
        '8'
    } else {
        '9'
    }
}

/// Whether every character is a decimal digit.
pub open spec fn all_digit_chars(s: Seq<char>) -> bool {
    forall|i: int| 0 <= i < s.len() ==> is_digit_char(s[i])
}

/// The digit values of a sequence of digit characters.
pub open spec fn char_digits(s: Seq<char>) -> Seq<u8> {
    s.map_values(|c: char| char_digit(c))
}

/// The rendering of a digit sequence as characters.
pub open spec fn digit_chars(s: Seq<u8>) -> Seq<char> {
    s.map_values(|d: u8| digit_char(d))
}

/// A string names a valid identifier when it is non-empty, all decimal
/// digits, and the digits pass the Luhn validity check.
pub open spec fn valid_number_string(s: Seq<char>) -> bool {
    &&& s.len() >= 1
    &&& all_digit_chars(s)
    &&& valid_identifier(char_digits(s))
}

/// The digit value of a character, or `None` when it is no decimal digit.
pub(crate) fn char_to_digit(c: char) -> (r: Option<u8>)
    ensures
        r is Some <==> is_digit_char(c),
        r matches Some(d) ==> d == char_digit(c) && d <= 9,
{
    match c {
        '0' => Some(0),
        '1' => Some(1),
        '2' => Some(2),
        '3' => Some(3),
        '4' => Some(4),
        '5' => Some(5),
        '6' => Some(6),
        '7' => Some(7),
        '8' => Some(8),
        '9' => Some(9),
        _ => None,
    }
}

/// The one-character string naming a digit value.
pub(crate) fn digit_to_str(d: u8) -> (r: &'static str)
    requires
        d <= 9,
    ensures
        r@ == seq![digit_char(d)],
{
    let r: &'static str = if d == 0 {
        "0"
    } else if d == 1 {
        "1"
    } else if d == 2 {
        "2"
    } else if d == 3 {
        "3"
    } else if d == 4 {
        "4"
    } else if d == 5 {
        "5"
    } else if d == 6 {
        "6"
    } else if d == 7 {
        "7"
    } else if d == 8 {
        "8"
    } else {
        "9"
    };
    proof {
        reveal_strlit("0");
        reveal_strlit("1");
        reveal_strlit("2");
        reveal_strlit("3");
        reveal_strlit("4");
        reveal_strlit("5");
        reveal_strlit("6");
        reveal_strlit("7");
        reveal_strlit("8");
        reveal_strlit("9");
        assert(r@ =~= seq![digit_char(d)]);
    }
    r
}

/// Relies on rand::thread_rng and rand::Rng::gen_range: a value drawn
/// from the non-empty range `0..=9` lies within that range.
#[verifier::external_body]
pub(crate) fn random_digit() -> (d: u8)
    ensures
        d <= 9,
{
    rand::thread_rng().gen_range(0..=9)
}

/// An account number: a digit payload plus the Luhn check digit
/// derived from it. Immutable once constructed.
#[derive(Debug)]
pub struct AccountNumber {
    payload: Vec<u8>,
    check_digit: u8,
}

impl AccountNumber {
    /// The full digit sequence: payload digits, then the check digit.
    pub closed spec fn digits(&self) -> Seq<u8> {
        self.payload@.push(self.check_digit)
    }

    #[verifier::type_invariant]
    spec fn inv(self) -> bool {
        &&& all_digits(self.payload@)
        &&& self.check_digit <= 9
        &&& self.check_digit == luhn_check_digit(self.payload@)
    }

    /// Draws a random payload of `length - 1` digits and derives the
    /// check digit, so the whole identifier is `length` digits wide.
    pub fn new(length: usize) -> (r: Self)
        requires
            length >= 2,
        ensures
            r.digits().len() == length,
            valid_identifier(r.digits()),
    {
        let mut payload: Vec<u8> = Vec::new();
        let mut i: usize = 0;
        while i < length - 1
            invariant
                length >= 2,
                i <= length - 1,
                payload@.len() == i,
                all_digits(payload@),
            decreases length - 1 - i,
        {
            let d = random_digit();
            payload.push(d);
            i = i + 1;
        }
        let check_digit = get_check_digit(payload.as_slice());
        let r = AccountNumber { payload, check_digit };
        proof {
            assert(r.digits().drop_last() =~= r.payload@);
        }
        r
    }

    /// Recomputes the check digit from the stored payload.
    pub fn check_digit(&self) -> (d: u8)
        ensures
            d == self.digits().last(),
            d == luhn_check_digit(self.digits().drop_last()),
    {
        proof {
            use_type_invariant(self);
            assert(self.digits().drop_last() =~= self.payload@);
        }
        get_check_digit(self.payload.as_slice())
    }

    /// Renders the identifier as its decimal digit string.
    pub fn human_readable(&self) -> (r: String)
        ensures
            r@ == digit_chars(self.digits()),
            valid_number_string(r@),
    {
        proof {
            use_type_invariant(self);
        }
        let mut s = String::new();
        let n = self.payload.len();
        let mut i: usize = 0;
        while i < n
            invariant
                i <= n,
                n == self.payload@.len(),
                all_digits(self.payload@),
                s@ == digit_chars(self.payload@.subrange(0, i as int)),
            decreases n - i,
        {
            let d = self.payload[i];
            s.append(digit_to_str(d));
            proof {
                assert(digit_chars(self.payload@.subrange(0, i + 1)) =~= digit_chars(
                    self.payload@.subrange(0, i as int),
                ) + seq![digit_char(self.payload@[i as int])]);
            }
            i = i + 1;
        }
        s.append(digit_to_str(self.check_digit));
        proof {
            assert(self.payload@.subrange(0, n as int) =~= self.payload@);
            assert(s@ =~= digit_chars(self.digits()));
            lemma_digit_chars_invert(self.digits());
            assert(char_digits(s@) =~= self.digits());
            assert(self.digits().drop_last() =~= self.payload@);
            assert(valid_identifier(self.digits()));
        }
        s
    }

    /// Parses a digit string into an identifier, checking the Luhn
    /// validity of the whole string; the last character is the check
    /// digit, everything before it the payload.
    pub fn from_str(s: &str) -> (r: Result<AccountNumber, LedgerError>)
        ensures
            r is Ok <==> valid_number_string(s@),
            r matches Ok(an) ==> an.digits() == char_digits(s@),
            r is Err ==> r == Err::<AccountNumber, LedgerError>(LedgerError::InvalidFormat),
    {
        let n = s.unicode_len();
        if n == 0 {
            return Err(LedgerError::InvalidFormat);
        }
        let mut ds: Vec<u8> = Vec::new();
        let mut i: usize = 0;
        while i < n
            invariant
                i <= n,
                n == s@.len(),
                ds@.len() == i,
                all_digits(ds@),
                forall|j: int| 0 <= j < i ==> is_digit_char(s@[j]),
                ds@ == char_digits(s@.subrange(0, i as int)),
            decreases n - i,
        {
            let c = s.get_char(i);
            match char_to_digit(c) {
                Some(d) => {
                    ds.push(d);
                    proof {
                        assert(char_digits(s@.subrange(0, i + 1)) =~= char_digits(
                            s@.subrange(0, i as int),
                        ) + seq![char_digit(s@[i as int])]);
                    }
                },
                None => {
                    return Err(LedgerError::InvalidFormat);
                },
            }
            i = i + 1;
        }
        proof {
            assert(s@.subrange(0, n as int) =~= s@);
        }
        let ghost full = ds@;
        let check_digit = match ds.pop() {
            Some(d) => d,
            None => {
                return Err(LedgerError::InvalidFormat);
            },
        };
        let expected = get_check_digit(ds.as_slice());
        if check_digit == expected {
            proof {
                assert(full.drop_last() =~= ds@);
            }
            let r = AccountNumber { payload: ds, check_digit };
            proof {
                assert(r.digits() =~= full);
            }
            Ok(r)
        } else {
            proof {
                assert(full.drop_last() =~= ds@);
            }
            Err(LedgerError::InvalidFormat)
        }
    }
}

/// The default account number is ten digits wide.
impl Default for AccountNumber {
    fn default() -> (r: Self)
        ensures
            r.digits().len() == 10,
            valid_identifier(r.digits()),
    {
        Self::new(10)
    }
}

/// Appending the Luhn check digit of any digit payload yields a valid
/// identifier, and its rendered digit string passes the parse check:
/// checksum and validation round-trip.
pub proof fn lemma_round_trip(payload: Seq<u8>)
    requires
        all_digits(payload),
    ensures
        valid_identifier(payload.push(luhn_check_digit(payload) as u8)),
        valid_number_string(digit_chars(payload.push(luhn_check_digit(payload) as u8))),
{
    let check = luhn_check_digit(payload) as u8;
    let full = payload.push(check);
    assert(0 <= luhn_check_digit(payload) <= 9);
    assert(full.drop_last() =~= payload);
    assert(all_digits(full));
    lemma_digit_chars_invert(full);
}

/// The doubled position of a digit within a sequence, counted from the
/// right end: `doubled` applies to the last element and alternates
/// leftwards.
spec fn position_doubled(len: int, i: int, doubled: bool) -> bool {
    if (len - 1 - i) % 2 == 0 {
        doubled
    } else {
        !doubled
    }
}

/// Two equally long digit sequences that differ in one position have
/// Luhn sums that differ by exactly the two contributions of that
/// position.
proof fn lemma_sum_diff(s1: Seq<u8>, s2: Seq<u8>, i: int, doubled: bool)
    requires
        s1.len() == s2.len(),
        0 <= i < s1.len(),
        forall|j: int| 0 <= j < s1.len() && j != i ==> s1[j] == s2[j],
    ensures
        luhn_sum_from(s1, doubled) - luhn_sum_from(s2, doubled) == luhn_contrib(
            s1[i],
            position_doubled(s1.len() as int, i, doubled),
        ) - luhn_contrib(s2[i], position_doubled(s1.len() as int, i, doubled)),
    decreases s1.len(),
{
    let n = s1.len() as int;
    if i == n - 1 {
        assert(s1.drop_last() =~= s2.drop_last());
    } else {
        lemma_sum_diff(s1.drop_last(), s2.drop_last(), i, !doubled);
        assert(position_doubled(n - 1, i, !doubled) == position_doubled(n, i, doubled));
    }
}

/// Two distinct digits contribute distinct amounts at the same
/// position, and the two contributions lie at most 9 apart.
proof fn lemma_contrib_distinct(a: u8, b: u8, doubled: bool)
    requires
        a <= 9,
        b <= 9,
        a != b,
    ensures
        luhn_contrib(a, doubled) != luhn_contrib(b, doubled),
        -9 <= luhn_contrib(a, doubled) - luhn_contrib(b, doubled) <= 9,
{
}

/// Single-digit-error detection: flipping exactly one digit of a valid
/// identifier makes the Luhn validity check fail.
pub proof fn lemma_single_digit_error(s1: Seq<u8>, s2: Seq<u8>, i: int)
    requires
        valid_identifier(s1),
        all_digits(s2),
        s1.len() == s2.len(),
        0 <= i < s1.len(),
        s1[i] != s2[i],
        forall|j: int| 0 <= j < s1.len() && j != i ==> s1[j] == s2[j],
    ensures
        !valid_identifier(s2),
{
    let n = s1.len() as int;
    let p1 = s1.drop_last();
    let p2 = s2.drop_last();
    if i == n - 1 {
        assert(p1 =~= p2);
        assert(s2.last() != luhn_check_digit(p2));
    } else {
        assert(s2.last() == s1.last());
        assert(forall|j: int| 0 <= j < p1.len() && j != i ==> p1[j] == p2[j]);
        lemma_sum_diff(p1, p2, i, true);
        lemma_contrib_distinct(p1[i], p2[i], position_doubled(n - 1, i, true));
        let sum1 = luhn_sum(p1);
        let sum2 = luhn_sum(p2);
        assert(sum1 - sum2 != 0 && -9 <= sum1 - sum2 <= 9);
        if sum1 % 10 == sum2 % 10 {
            vstd::arithmetic::div_mod::lemma_sub_mod_noop(sum1, sum2, 10);
            assert((sum1 - sum2) % 10 == 0);
            assert(false);
        }
        assert(luhn_check_digit(p1) != luhn_check_digit(p2));
        assert(s2.last() != luhn_check_digit(p2));
    }
}

/// Single-digit-error detection at the string level: flipping exactly
/// one digit character of a string that parses as a valid identifier
/// yields a string that the parse check rejects.
pub proof fn lemma_single_digit_error_string(s1: Seq<char>, s2: Seq<char>, i: int)
    requires
        valid_number_string(s1),
        all_digit_chars(s2),
        s1.len() == s2.len(),
        0 <= i < s1.len(),
        s1[i] != s2[i],
        forall|j: int| 0 <= j < s1.len() && j != i ==> s1[j] == s2[j],
    ensures
        !valid_number_string(s2),
{
    let d1 = char_digits(s1);
    let d2 = char_digits(s2);
    assert(is_digit_char(s1[i]) && is_digit_char(s2[i]));
    assert(d1[i] != d2[i]);
    assert(forall|j: int| 0 <= j < d1.len() && j != i ==> d1[j] == d2[j]);
    assert(all_digits(d2));
    lemma_single_digit_error(d1, d2, i);
}

/// Mapping digits to characters and back returns the original digits.
proof fn lemma_digit_chars_invert(s: Seq<u8>)
    requires
        all_digits(s),
    ensures
        all_digit_chars(digit_chars(s)),
        char_digits(digit_chars(s)) =~= s,
{
    assert forall|i: int| 0 <= i < s.len() implies is_digit_char(digit_chars(s)[i]) by {
        assert(s[i] <= 9);
    }
    assert forall|i: int| 0 <= i < s.len() implies char_digits(digit_chars(s))[i] == s[i] by {
        assert(s[i] <= 9);
    }
}

} // verus!
