use vstd::prelude::*;

verus! {

/// A refused change to the store's data (a directory edit that does not apply).
#[derive(Debug, Clone)]
pub struct FilesystemError {
    msg: String,
}

impl FilesystemError {
    pub fn new(msg: &str) -> (e: FilesystemError)
        ensures
            e.message_view() == msg@,
    {
        FilesystemError { msg: msg.to_string() }
    }

    pub closed spec fn message_view(&self) -> Seq<char> {
        self.msg@
    }

    pub fn message(&self) -> (s: String)
        ensures
            s@ == self.message_view(),
    {
        self.msg.clone()
    }
}

/// A path that cannot be resolved, or a listing a store does not offer.
#[derive(Debug, Clone)]
pub struct PathResolutionError {
    msg: String,
}

impl PathResolutionError {
    pub fn new(msg: &str) -> (e: PathResolutionError)
        ensures
            e.message_view() == msg@,
    {
        PathResolutionError { msg: msg.to_string() }
    }

    pub closed spec fn message_view(&self) -> Seq<char> {
        self.msg@
    }

    pub fn message(&self) -> (s: String)
        ensures
            s@ == self.message_view(),
    {
        self.msg.clone()
    }
}

} // verus!
