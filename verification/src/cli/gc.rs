//! # The `gc` verb
//!
//! A store never collects itself: what reclaims is this verb, when an
//! operator or a schedule asks for it.

use crate::cli::{bytes, bytes_text, count_text};
use crate::scan::decimal_text;
use vstd::prelude::*;
use vstd::string::*;

verus! {

/// The `gc` output.
#[derive(Clone, Copy, Debug, PartialEq, Eq)]
pub struct GcOutput {
    /// Object rows dropped.
    pub objects: usize,
    /// Blob files unlinked.
    pub blobs: usize,
    /// Bytes they freed.
    pub bytes: u64,
}

impl GcOutput {
    /// What the collector says.
    pub fn line(&self) -> (text: String)
        ensures
            text@ == if self.objects == 0 && self.blobs == 0 {
                "Nothing to collect: every body is still referenced"@
            } else {
                "Collected "@ + decimal_text(self.objects as nat) + " object(s) and "@
                    + decimal_text(self.blobs as nat) + " blob file(s), freeing "@ + bytes_text(
                    self.bytes as nat,
                )
            },
    {
        if self.objects == 0 && self.blobs == 0 {
            return "Nothing to collect: every body is still referenced".to_owned();
        }
        let mut text = "Collected ".to_owned();
        text.append(count_text(self.objects).as_str());
        text.append(" object(s) and ");
        text.append(count_text(self.blobs).as_str());
        text.append(" blob file(s), freeing ");
        text.append(bytes(self.bytes).as_str());
        text
    }
}

} // verus!
