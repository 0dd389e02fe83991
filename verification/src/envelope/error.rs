//! The error raised while building or checking an envelope.

use vstd::prelude::*;

verus! {

/// Why an envelope (or a topic, or an id) was rejected.
#[derive(Debug, Clone, PartialEq, Eq)]
pub struct EnvelopeBuildError(pub String);

impl EnvelopeBuildError {
    /// The error as the library-wide `Error::EnvelopeBuild`.
    pub fn into_error(self) -> (e: crate::Error)
        ensures
            e == crate::Error::EnvelopeBuild(self.0),
    {
        crate::Error::EnvelopeBuild(self.0)
    }
}

impl From<EnvelopeBuildError> for crate::Error {
    fn from(e: EnvelopeBuildError) -> (r: crate::Error) {
        crate::Error::EnvelopeBuild(e.0)
    }
}

impl vstd::std_specs::convert::FromSpecImpl<EnvelopeBuildError> for crate::Error {
    open spec fn obeys_from_spec() -> bool {
        true
    }

    open spec fn from_spec(e: EnvelopeBuildError) -> crate::Error {
        crate::Error::EnvelopeBuild(e.0)
    }
}

} // verus!
