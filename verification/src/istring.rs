//! An owned text value that can be read either as characters or as its
//! UTF-8 bytes.

use vstd::prelude::*;
use vstd::string::StrSliceExecFns;
use vstd::utf8::encode_utf8;

verus! {

/// A string the store handed back, readable as text or as raw bytes.
pub struct IrminString {
    pub text: String,
}

impl DeepView for IrminString {
    type V = Seq<char>;

    open spec fn deep_view(&self) -> Seq<char> {
        self.text@
    }
}

impl IrminString {
    /// Wraps an owned string.
    pub fn new(text: String) -> (r: IrminString)
        ensures
            r.deep_view() == text@,
    {
        IrminString { text }
    }

    /// The value as text.
    pub fn as_str(&self) -> (r: &str)
        ensures
            r@ == self.deep_view(),
    {
        self.text.as_str()
    }

    /// The value as its UTF-8 bytes.
    pub fn as_slice(&self) -> (r: &[u8])
        ensures
            r@ == encode_utf8(self.deep_view()),
    {
        self.text.as_str().as_bytes()
    }

    /// How many bytes the UTF-8 form takes.
    pub fn len(&self) -> (r: usize)
        ensures
            r == encode_utf8(self.deep_view()).len(),
    {
        self.text.as_str().as_bytes().len()
    }
}

} // verus!
