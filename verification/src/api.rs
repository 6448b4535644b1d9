//! A uniform success/error envelope for results handed to a host
//! application.

use vstd::prelude::*;

verus! {

/// Wraps a value or an error message for transport to a caller that wants a
/// uniform envelope: exactly one of `data` and `error` is present, and
/// `success` says which.
pub struct ApiResult<T> {
    pub success: bool,
    pub data: Option<T>,
    pub error: Option<String>,
}

impl<T> ApiResult<T> {
    /// Either a successful envelope carrying data, or a failed one carrying
    /// an error message.
    pub open spec fn wf(self) -> bool {
        if self.success {
            self.data is Some && self.error is None
        } else {
            self.data is None && self.error is Some
        }
    }

    /// A successful envelope around `data`.
    pub fn success(data: T) -> (r: Self)
        ensures
            r.wf(),
            r.success,
            r.data == Some(data),
    {
        Self { success: true, data: Some(data), error: None }
    }

    /// A failed envelope around an error message.
    pub fn error(message: String) -> (r: Self)
        ensures
            r.wf(),
            !r.success,
            r.error == Some(message),
    {
        Self { success: false, data: None, error: Some(message) }
    }
}

} // verus!
