//! The Python parser front-end.

use vstd::prelude::*;

verus! {

/// Parser for Python (`.py`) source files.
#[derive(Debug)]
pub struct PythonParser {
    _private: (),
}

impl PythonParser {
    pub fn new() -> (r: Self) {
        PythonParser { _private: () }
    }

    /// The file extensions this parser handles.
    pub fn extensions(&self) -> (r: Vec<String>)
        ensures
            r@.len() == 1,
            r@[0]@ == "py"@,
    {
        let mut v: Vec<String> = Vec::new();
        v.push("py".to_owned());
        v
    }
}

} // verus!
