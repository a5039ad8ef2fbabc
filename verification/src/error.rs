//! What can be wrong with the settings and the inputs.

use vstd::prelude::*;
use crate::number::NumberFault;

verus! {

/// The kind of a fault.
#[derive(Clone, Copy, Debug, PartialEq, Eq, Structural)]
pub enum Fault {
    UnterminatedSingleQuote,
    UnterminatedDoubleQuote,
    TrailingBackslash,
    BadBool,
    BadNumber(NumberFault),
    BadReal,
    UnsupportedPixelFormat,
    FillHexLength,
    FillNumber(NumberFault),
    FillComponents,
    BadAudioMode,
    BadAudioReverse,
    BadMode,
    MemoryOutOfRange,
    BadAnchor,
    BadClip,
    BadClipAnchor,
    BadClipCount(NumberFault),
    ZeroClipCount,
    ClipNeedsFrameCount,
    NthNeedsCount,
    BadInterp,
    BadOrder,
    BadOutputSize,
    BadDimension(usize),
    NoVideoStream,
    NoDimensions,
    NoFrameRate,
    BadFrameRate,
    Interrupted,
    StreamNeedsTime,
    NoFrames,
    RaggedFile,
}

/// A fault with what it is about: the setting it was found in (empty when there is none) and the
/// offending text.
#[derive(Clone, Debug)]
pub struct Error {
    pub fault: Fault,
    pub name: String,
    pub text: String,
}

impl Error {
    /// True when the error is this fault, in this setting, about this text.
    pub open spec fn says(self, fault: Fault, name: Seq<char>, text: Seq<char>) -> bool {
        self.fault == fault && self.name@ == name && self.text@ == text
    }

    /// A fault in a setting.
    pub fn new(fault: Fault, name: &str, text: &str) -> (r: Error)
        ensures
            r.says(fault, name@, text@),
    {
        Error { fault, name: name.to_owned(), text: text.to_owned() }
    }

    /// A fault in no setting, about a text.
    pub fn about(fault: Fault, text: &str) -> (r: Error)
        ensures
            r.says(fault, Seq::empty(), text@),
    {
        Error { fault, name: String::new(), text: text.to_owned() }
    }

    /// A fault in no setting and about no text.
    pub fn plain(fault: Fault) -> (r: Error)
        ensures
            r.says(fault, Seq::empty(), Seq::empty()),
    {
        Error { fault, name: String::new(), text: String::new() }
    }
}

} // verus!
