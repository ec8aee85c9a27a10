pub mod inode;
pub mod u16cstr;
pub mod u32;

pub use self::u32::U32Ext;

use self::u16cstr::{sanitize_basic, spec_sanitize_basic, utf16_lossy, wide_to_string_lossy, wide_units};
use vstd::prelude::*;
use widestring::U16CStr;

verus! {

/// The plain conversion of Windows file names to ext4 paths: separators turned to
/// `/` and trailing nul characters removed, nothing else (see `u16cstr::U16CStrExt`
/// for the full normalisation).
pub trait U16CStrExt {
    fn sanitize(&self) -> String;
}

impl U16CStrExt for U16CStr {
    fn sanitize(&self) -> (r: String)
        ensures
            r@ == spec_sanitize_basic(utf16_lossy(wide_units(self))),
    {
        let raw = wide_to_string_lossy(self);
        sanitize_basic(raw.as_str())
    }
}

} // verus!
