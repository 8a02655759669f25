//! Bodies of the web front-end's replies, and the login token they are
//! granted by.
use vstd::prelude::*;

verus! {

/// A successful reply of the web front-end carrying `data`.
#[derive(Debug, Clone)]
pub struct NormalResponse<T> {
    /// Status: 0 is success.
    pub code: u16,
    pub data: T,
}

impl<T> NormalResponse<T> {
    /// A reply with status 0 carrying `data`.
    pub fn new(data: T) -> (r: NormalResponse<T>)
        ensures
            r.code == 0,
            r.data == data,
    {
        NormalResponse { code: 0, data }
    }
}

/// The login token carried by each request of a signed-in user.
#[derive(Debug, Clone, Copy, PartialEq, Eq, Structural)]
pub struct JwtToken {
    /// The user's id.
    pub uid: i32,
    /// Whether the user is an administrator.
    pub is_admin: bool,
}

} // verus!
