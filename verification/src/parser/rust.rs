//! The Rust parser front-end.

use vstd::prelude::*;

verus! {

/// Parser for Rust (`.rs`) source files.
#[derive(Debug)]
pub struct RustParser {
    _private: (),
}

impl RustParser {
    pub fn new() -> (r: Self) {
        RustParser { _private: () }
    }

    /// The file extensions this parser handles.
    pub fn extensions(&self) -> (r: Vec<String>)
        ensures
            r@.len() == 1,
            r@[0]@ == "rs"@,
    {
        let mut v: Vec<String> = Vec::new();
        v.push("rs".to_owned());
        v
    }
}

} // verus!
