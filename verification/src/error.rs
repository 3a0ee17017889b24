use vstd::prelude::*;

verus! {

/// The error taxonomy of the registry. Every variant carries a descriptive
/// string payload: the offending path, name, or an explanatory message.
#[derive(Debug)]
pub enum BingoError {
    /// A registration source path does not exist.
    FileNotFound(String),
    /// A name is already registered (reserved for strict-add semantics;
    /// `add_executable` overwrites instead of raising this).
    DuplicateExecutableName(String),
    /// The manifest file is missing or unreadable at load time.
    ConfigFileNotFound(String),
    /// The manifest content is malformed, or persistence failed.
    ConfigFileError(String),
    /// A registration source path exists but is not a regular file.
    ExecutableNotFile(String),
    /// A registration source path lacks execute permission.
    ExecutableNotExecutable(String),
    /// Permission metadata could not be read or set on an installed artifact.
    PermissionDenied(String),
}

pub type BingoResult<T> = Result<T, BingoError>;

impl BingoError {
    /// The human-readable description of this error: a fixed phrase for the
    /// kind, then the payload.
    pub fn message(&self) -> (r: String)
        ensures
            r@ == match self {
                BingoError::FileNotFound(s) => "file not found: "@ + s@,
                BingoError::DuplicateExecutableName(s) => "duplicate executable name: "@ + s@,
                BingoError::ConfigFileNotFound(s) => "config file not found: "@ + s@,
                BingoError::ConfigFileError(s) => "config file error: "@ + s@,
                BingoError::ExecutableNotFile(s) => "executable must be a file: "@ + s@,
                BingoError::ExecutableNotExecutable(s) => "executable cannot be executed: "@ + s@,
                BingoError::PermissionDenied(s) => "Permission denied: "@ + s@,
            },
    {
        let (head, payload): (&str, &String) = match self {
            BingoError::FileNotFound(s) => ("file not found: ", s),
            BingoError::DuplicateExecutableName(s) => ("duplicate executable name: ", s),
            BingoError::ConfigFileNotFound(s) => ("config file not found: ", s),
            BingoError::ConfigFileError(s) => ("config file error: ", s),
            BingoError::ExecutableNotFile(s) => ("executable must be a file: ", s),
            BingoError::ExecutableNotExecutable(s) => ("executable cannot be executed: ", s),
            BingoError::PermissionDenied(s) => ("Permission denied: ", s),
        };
        let mut r = String::from_str(head);
        r.append(payload.as_str());
        r
    }
}

} // verus!
