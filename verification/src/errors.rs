//! Errors returned by the owned-name API.

use vstd::prelude::*;

verus! {

#[derive(Clone, PartialEq, Eq, Debug)]
pub enum Error {
    NoHost,
    InvalidHost,
    InvalidEmail,
    InvalidDomain(String),
}

} // verus!
