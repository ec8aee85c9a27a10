use ext4_lwext4::OpenFlags;
use vstd::prelude::*;

verus! {

#[verifier::external_type_specification]
#[verifier::external_body]
pub struct ExOpenFlags(OpenFlags);

/// An open file of the volume: its path and the flags it was opened with.
pub struct WinExtFile {
    pub path: String,
    pub flags: OpenFlags,
}

impl WinExtFile {
    pub fn new(path: &str, flags: OpenFlags) -> (f: WinExtFile)
        ensures
            f.path@ == path@,
            f.flags == flags,
    {
        WinExtFile { path: path.to_owned(), flags }
    }
}

} // verus!
