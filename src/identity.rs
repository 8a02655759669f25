//! Binding a user to a student account of the campus portal.
use vstd::prelude::*;
use vstd::string::{StrSliceExecFns, StringSliceAdditionalSpecFns};

verus! {

/// A user's link to a student account.
#[derive(Debug, Clone)]
pub struct Identity {
    pub uid: i32,
    pub student_id: String,
}

/// Why a portal account is refused before the portal is asked.
#[derive(Debug, Clone, Copy, PartialEq, Eq, Structural)]
pub enum UserError {
    /// The secret is still the portal's default: six digits.
    DefaultSecretDenied,
    /// No student number has that length.
    NoSuchStudentNo,
    /// Only undergraduates are served.
    NoSupport,
}

pub open spec fn is_digit_byte(b: u8) -> bool {
    48 <= b <= 57
}

/// Six bytes, each an ASCII digit.
pub open spec fn default_digit_spec(secret: &str) -> bool {
    let b = secret.spec_bytes();
    b.len() == 6 && forall|i: int| 0 <= i < 6 ==> is_digit_byte(#[trigger] b[i])
}

/// Nine or ten bytes long.
pub open spec fn student_id_spec(account: &str) -> bool {
    account.spec_bytes().len() == 9 || account.spec_bytes().len() == 10
}

/// The third character is `3`.
pub open spec fn not_undergraduate_spec(account: &str) -> bool {
    account@.len() > 2 && account@[2] == '3'
}

impl Identity {
    pub fn new(uid: i32, student_id: String) -> (r: Identity)
        ensures
            r.uid == uid,
            r.student_id == student_id,
    {
        Identity { uid, student_id }
    }

    /// The checks made on a portal account before the portal itself is asked:
    /// a default secret is refused first, then an account that is no student
    /// number, then one of a postgraduate.
    pub fn check_oa_account(student_id: &str, oa_secret: &str) -> (r: Result<(), UserError>)
        ensures
            r == if default_digit_spec(oa_secret) {
                Err(UserError::DefaultSecretDenied)
            } else if !student_id_spec(student_id) {
                Err(UserError::NoSuchStudentNo)
            } else if not_undergraduate_spec(student_id) {
                Err(UserError::NoSupport)
            } else {
                Ok(())
            },
    {
        if is_default_digit(oa_secret) {
            return Err(UserError::DefaultSecretDenied);
        }
        if !is_student_id(student_id) {
            return Err(UserError::NoSuchStudentNo);
        }
        if is_not_undergraduate(student_id) {
            return Err(UserError::NoSupport);
        }
        Ok(())
    }
}

/// Whether `secret` is six ASCII digits, as the portal's default secrets are.
pub fn is_default_digit(secret: &str) -> (r: bool)
    ensures
        r == default_digit_spec(secret),
{
    let b = secret.as_bytes();
    if b.len() != 6 {
        return false;
    }
    let mut i: usize = 0;
    while i < 6
        invariant
            b@ == secret.spec_bytes(),
            b@.len() == 6,
            i <= 6,
            forall|j: int| 0 <= j < i ==> is_digit_byte(#[trigger] b@[j]),
        decreases 6 - i,
    {
        if b[i] < 48 || b[i] > 57 {
            return false;
        }
        i += 1;
    }
    true
}

/// Whether `account` has the length of a student number.
pub fn is_student_id(account: &str) -> (r: bool)
    ensures
        r == student_id_spec(account),
{
    let n = account.as_bytes().len();
    n == 9 || n == 10
}

/// Whether `account` belongs to a postgraduate: its third character is `3`.
pub fn is_not_undergraduate(account: &str) -> (r: bool)
    ensures
        r == not_undergraduate_spec(account),
{
    account.unicode_len() > 2 && account.get_char(2) == '3'
}

} // verus!
