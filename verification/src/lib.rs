//! A revision-spec resolution engine: the delegate that a grammar driver calls
//! back into while recognizing revision-spec syntax, together with the
//! disambiguation, peeling and path-lookup logic that turns partial input
//! (hex prefixes, ref names, peel operators, path suffixes) into a fully
//! resolved spec or a deterministically ordered list of diagnostics.

pub mod buffer;
pub mod candidates;
pub mod delegate;
pub mod error;
pub mod laws;
pub mod object;
pub mod oid;
pub mod refs;
pub mod traverse;
