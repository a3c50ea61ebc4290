use vstd::prelude::*;

verus! {

/// The classes of failure that callers tell apart.
#[derive(Clone, Copy, Debug, PartialEq, Eq, Structural)]
pub enum ErrorKind {
    NotFound,
    AlreadyExists,
    InvalidState,
    DecodeFailure,
}

/// A failure of a profile operation.
#[derive(Clone, Debug, PartialEq, Eq)]
pub enum NoitadError {
    /// No profile of this name is registered.
    ProfileNotFound(String),
    /// The game's save directory could not be found.
    SaveDirNotFound,
    /// A profile of this name is registered already.
    ProfileExists(String),
    /// The profile is the active one and cannot be removed.
    ProfileActive(String),
    /// No profile was named and none is active.
    NoProfileSelected,
    /// Several enabled mods share each of these names.
    DuplicateEnabled(Vec<String>),
    /// No profile is registered.
    NoProfiles,
    /// A mod-list file is malformed.
    Decode,
}

impl NoitadError {
    pub open spec fn spec_kind(&self) -> ErrorKind {
        match self {
            NoitadError::ProfileNotFound(_) => ErrorKind::NotFound,
            NoitadError::SaveDirNotFound => ErrorKind::NotFound,
            NoitadError::NoProfiles => ErrorKind::NotFound,
            NoitadError::ProfileExists(_) => ErrorKind::AlreadyExists,
            NoitadError::ProfileActive(_) => ErrorKind::InvalidState,
            NoitadError::NoProfileSelected => ErrorKind::InvalidState,
            NoitadError::DuplicateEnabled(_) => ErrorKind::InvalidState,
            NoitadError::Decode => ErrorKind::DecodeFailure,
        }
    }

    #[verifier::when_used_as_spec(spec_kind)]
    pub fn kind(&self) -> (r: ErrorKind)
        ensures
            r == self.spec_kind(),
    {
        match self {
            NoitadError::ProfileNotFound(_) => ErrorKind::NotFound,
            NoitadError::SaveDirNotFound => ErrorKind::NotFound,
            NoitadError::NoProfiles => ErrorKind::NotFound,
            NoitadError::ProfileExists(_) => ErrorKind::AlreadyExists,
            NoitadError::ProfileActive(_) => ErrorKind::InvalidState,
            NoitadError::NoProfileSelected => ErrorKind::InvalidState,
            NoitadError::DuplicateEnabled(_) => ErrorKind::InvalidState,
            NoitadError::Decode => ErrorKind::DecodeFailure,
        }
    }
}

} // verus!
