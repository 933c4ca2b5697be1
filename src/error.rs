use vstd::prelude::*;

verus! {

/// Why a directory could not be listed; each case carries the details.
pub enum ReadDirError {
    OpenDirError(String),
    DirectoryNotFound(String),
    ReadDirectoryError(String),
    Unknown(String),
}

impl ReadDirError {
    /// The message of the error, without its details.
    pub fn message(&self) -> (r: String)
        ensures
            r@ == match self {
                ReadDirError::OpenDirError(_) => "Failed to open directory"@,
                ReadDirError::DirectoryNotFound(_) => "Failed to open directory: no such path"@,
                ReadDirError::ReadDirectoryError(_) => "Failed to read directory"@,
                ReadDirError::Unknown(_) => "Unknown Error"@,
            },
    {
        match self {
            ReadDirError::OpenDirError(_) => String::from_str("Failed to open directory"),
            ReadDirError::DirectoryNotFound(_) => String::from_str("Failed to open directory: no such path"),
            ReadDirError::ReadDirectoryError(_) => String::from_str("Failed to read directory"),
            ReadDirError::Unknown(_) => String::from_str("Unknown Error"),
        }
    }
}

} // verus!
