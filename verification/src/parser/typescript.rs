//! The TypeScript parser front-end.

use vstd::prelude::*;

verus! {

/// Parser for TypeScript (`.ts`) source files.
#[derive(Debug)]
pub struct TypescriptParser {
    _private: (),
}

impl TypescriptParser {
    pub fn new() -> (r: Self) {
        TypescriptParser { _private: () }
    }

    /// The file extensions this parser handles.
    pub fn extensions(&self) -> (r: Vec<String>)
        ensures
            r@.len() == 1,
            r@[0]@ == "ts"@,
    {
        let mut v: Vec<String> = Vec::new();
        v.push("ts".to_owned());
        v
    }
}

} // verus!
