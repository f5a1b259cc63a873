//! Language parser front-ends. Parsing itself (source text to a concrete
//! syntax tree) is a pluggable capability of the application; here live the
//! parser identities and the file extensions each one claims.

pub mod python;
pub mod rust;
pub mod typescript;
