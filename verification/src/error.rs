use vstd::prelude::*;

verus! {

/// Error type shared by all operations of the library.
#[derive(Debug, PartialEq, Eq)]
pub enum ShmError {
    /// An operating-system error (errno on Unix, Win32 error on Windows).
    Os(String),
    /// A caller-supplied argument is invalid (e.g. `size == 0`).
    InvalidArg(String),
    /// The calling process lacks the required privileges.
    Permission(String),
}

impl ShmError {
    /// The message carried by the error.
    pub open spec fn message(&self) -> Seq<char> {
        match self {
            ShmError::Os(m) => m@,
            ShmError::InvalidArg(m) => m@,
            ShmError::Permission(m) => m@,
        }
    }

    /// The text the error is displayed as: its kind, then its message.
    pub fn display(&self) -> (s: String)
        ensures
            s@ == match self {
                ShmError::Os(_) => "OS error: "@,
                ShmError::InvalidArg(_) => "Invalid argument: "@,
                ShmError::Permission(_) => "Permission denied: "@,
            } + self.message(),
    {
        match self {
            ShmError::Os(m) => String::from_str("OS error: ").concat(m.as_str()),
            ShmError::InvalidArg(m) => String::from_str("Invalid argument: ").concat(m.as_str()),
            ShmError::Permission(m) => String::from_str("Permission denied: ").concat(m.as_str()),
        }
    }
}

/// Builds an `InvalidArg` error from a fixed message.
pub fn invalid_arg(msg: &str) -> (e: ShmError)
    ensures
        e is InvalidArg,
        e.message() == msg@,
{
    ShmError::InvalidArg(String::from_str(msg))
}

} // verus!
