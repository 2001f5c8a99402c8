//! A small string helper: wrapping a text in a prefix and a suffix.

use vstd::prelude::*;

verus! {

/// Wrapping a text between two other texts.
pub trait SurroundWith {
    /// The characters of the text being wrapped.
    spec fn text(&self) -> Seq<char>;

    /// The text with `left` before it and `right` after it.
    fn surround_with(&self, left: &str, right: &str) -> (r: String)
        ensures
            r@ == left@ + self.text() + right@,
    ;
}

impl SurroundWith for String {
    open spec fn text(&self) -> Seq<char> {
        self@
    }

    fn surround_with(&self, left: &str, right: &str) -> (r: String) {
        let mut out = String::from_str(left);
        out.append(self.as_str());
        out.append(right);
        out
    }
}

impl SurroundWith for &str {
    open spec fn text(&self) -> Seq<char> {
        self@
    }

    fn surround_with(&self, left: &str, right: &str) -> (r: String) {
        let mut out = String::from_str(left);
        out.append(self);
        out.append(right);
        out
    }
}

} // verus!
