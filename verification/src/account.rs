//! Validated account identifiers.
//!
//! An account identifier is 2 to 64 characters, each a lowercase ASCII
//! letter, a digit, or one of the separators `.`, `-` and `_`; a separator
//! may not start or end the identifier, and two separators may not be
//! adjacent.

use vstd::prelude::*;
use vstd::string::StrSliceExecFns;

use crate::types::AccountId;

verus! {

/// Whether `c` is one of the separator characters `.`, `-` or `_`.
pub open spec fn is_separator_char(c: char) -> bool {
    c == '.' || c == '-' || c == '_'
}

/// Whether `c` may appear in an account identifier.
pub open spec fn is_account_char(c: char) -> bool {
    ('a' <= c && c <= 'z') || ('0' <= c && c <= '9') || is_separator_char(c)
}

/// The validity rule for account identifiers.
pub open spec fn valid_account_id(s: Seq<char>) -> bool {
    &&& 2 <= s.len() <= 64
    &&& forall|i: int| 0 <= i < s.len() ==> is_account_char(#[trigger] s[i])
    &&& !is_separator_char(s[0])
    &&& !is_separator_char(s[s.len() - 1])
    &&& forall|i: int|
        0 < i < s.len() ==> !(is_separator_char(#[trigger] s[i]) && is_separator_char(s[i - 1]))
}

/// Checks the account-identifier rule character by character.
pub fn is_valid_account_id(account_id: &str) -> (r: bool)
    ensures
        r == valid_account_id(account_id@),
{
    let n = account_id.unicode_len();
    if n < 2 || n > 64 {
        return false;
    }
    let mut last_char_is_separator = true;
    let mut i: usize = 0;
    while i < n
        invariant
            n == account_id@.len(),
            2 <= n <= 64,
            i <= n,
            forall|j: int| 0 <= j < i ==> is_account_char(#[trigger] account_id@[j]),
            forall|j: int|
                0 < j < i ==> !(is_separator_char(#[trigger] account_id@[j]) && is_separator_char(
                    account_id@[j - 1],
                )),
            i > 0 ==> !is_separator_char(account_id@[0]),
            last_char_is_separator == (i == 0 || is_separator_char(account_id@[i - 1])),
        decreases n - i,
    {
        let c = account_id.get_char(i);
        let is_lower = 'a' <= c && c <= 'z';
        let is_digit = '0' <= c && c <= '9';
        let is_sep = c == '.' || c == '-' || c == '_';
        if !is_lower && !is_digit && !is_sep {
            return false;
        }
        if is_sep && last_char_is_separator {
            proof {
                if i > 0 {
                    assert(is_separator_char(account_id@[i as int]) && is_separator_char(
                        account_id@[i - 1],
                    ));
                }
            }
            return false;
        }
        last_char_is_separator = is_sep;
        i = i + 1;
    }
    !last_char_is_separator
}

/// An account identifier that has passed validation.
#[derive(Debug, Clone, PartialEq, Eq)]
pub struct ValidAccountId(AccountId);

impl ValidAccountId {
    /// The identifier's characters.
    pub closed spec fn spec_chars(self) -> Seq<char> {
        self.0@
    }

    fn is_valid(&self) -> (r: bool)
        ensures
            r == valid_account_id(self.spec_chars()),
    {
        is_valid_account_id(self.0.as_str())
    }

    /// Validates `value` and wraps it; an invalid identifier is reported with
    /// a message.
    pub fn try_from(value: &str) -> (r: Result<ValidAccountId, String>)
        ensures
            match r {
                Ok(v) => valid_account_id(value@) && v.spec_chars() == value@,
                Err(_) => !valid_account_id(value@),
            },
    {
        let res = ValidAccountId(value.to_owned());
        if res.is_valid() {
            Ok(res)
        } else {
            let msg = "The account ID is invalid";
            Err(msg.to_owned())
        }
    }

    /// Borrows the underlying identifier.
    pub fn as_ref(&self) -> (r: &AccountId)
        ensures
            r@ == self.spec_chars(),
    {
        &self.0
    }
}

} // verus!
