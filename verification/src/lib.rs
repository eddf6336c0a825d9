//! A YUM repository dependency checker: parses `primary.xml` package
//! metadata into an index, encodes the requires / conflicts / obsoletes
//! relations reachable from a root package as a CNF formula, and asks a
//! SAT solver whether the root can be installed.
use vstd::prelude::*;

pub mod repo;
pub mod solve;
pub mod text;
pub mod xml;
pub mod yum;

verus! {

} // verus!
