//! The errors returned by this crate.

use vstd::prelude::*;

verus! {

/// Information about the error and its input.
#[derive(Copy, Clone, Eq, PartialEq, Debug)]
pub struct Error<'a> {
    kind: Kind,
    input: &'a str,
}

impl<'a> Error<'a> {
    pub fn new(kind: Kind, input: &'a str) -> (r: Self)
        ensures
            r.spec_kind() == kind,
            r.spec_input() == input,
    {
        Self { kind, input }
    }

    /// The kind of error this is.
    pub fn kind(&self) -> (r: Kind)
        ensures
            r == self.spec_kind(),
    {
        self.kind
    }

    /// The input that resulted in this error.
    pub fn input(&self) -> (r: &'a str)
        ensures
            r == self.spec_input(),
    {
        self.input
    }

    /// A short description of the error.
    pub fn message(&self) -> (r: &'static str)
        ensures
            r@ == kind_message(self.spec_kind()),
    {
        self.kind.message()
    }
}

impl<'a> Error<'a> {
    /// The stored kind, for contracts.
    pub closed spec fn spec_kind(&self) -> Kind {
        self.kind
    }

    /// The stored input, for contracts.
    pub closed spec fn spec_input(&self) -> &'a str {
        self.input
    }
}

/// Description of the error.
#[derive(Copy, Clone, Eq, PartialEq, Ord, PartialOrd, Hash, Debug, Structural)]
#[non_exhaustive]
pub enum Kind {
    NameTooLong,
    EmptyLabel,
    EmailLocalTooLong,
    EmailTooLong,
    EmptyName,
    IllegalCharacter,
    InvalidDomain,
    InvalidIpAddr,
    LabelEndNotAlnum,
    LabelStartNotAlnum,
    LabelTooLong,
    NoAtSign,
    NoHostPart,
    NoUserPart,
    NumericTld,
    QuoteUnclosed,
    TooManyLabels,
}

/// The description each kind of error carries.
pub open spec fn kind_message(k: Kind) -> Seq<char> {
    match k {
        Kind::NameTooLong => "name too long"@,
        Kind::EmptyLabel => "domain/email contains empty label"@,
        Kind::EmailLocalTooLong => "email local too long"@,
        Kind::EmailTooLong => "email too long"@,
        Kind::EmptyName => "name is empty"@,
        Kind::IllegalCharacter => "domain contains illegal characters"@,
        Kind::InvalidDomain => "invalid domain name"@,
        Kind::InvalidIpAddr => "email has an invalid ip address"@,
        Kind::LabelEndNotAlnum => "label does not start with an alphanumeric character"@,
        Kind::LabelStartNotAlnum => "label does not end with a alphanumeric character"@,
        Kind::LabelTooLong => "label too long"@,
        Kind::NoAtSign => "email address has no at sign"@,
        Kind::NoHostPart => "email address has no host part"@,
        Kind::NoUserPart => "email address has no user part"@,
        Kind::NumericTld => "numeric TLD"@,
        Kind::QuoteUnclosed => "email has an unclosed quotation mark"@,
        Kind::TooManyLabels => "too many labels"@,
    }
}

impl Kind {
    /// Wrap this kind together with the input that caused it.
    pub fn error_with<'a>(self, input: &'a str) -> (r: Error<'a>)
        ensures
            r.spec_kind() == self,
            r.spec_input() == input,
    {
        Error::new(self, input)
    }

    /// A short description of the error.
    pub fn message(&self) -> (r: &'static str)
        ensures
            r@ == kind_message(*self),
    {
        match self {
            Kind::NameTooLong => "name too long",
            Kind::EmptyLabel => "domain/email contains empty label",
            Kind::EmailLocalTooLong => "email local too long",
            Kind::EmailTooLong => "email too long",
            Kind::EmptyName => "name is empty",
            Kind::IllegalCharacter => "domain contains illegal characters",
            Kind::InvalidDomain => "invalid domain name",
            Kind::InvalidIpAddr => "email has an invalid ip address",
            Kind::LabelEndNotAlnum => "label does not start with an alphanumeric character",
            Kind::LabelStartNotAlnum => "label does not end with a alphanumeric character",
            Kind::LabelTooLong => "label too long",
            Kind::NoAtSign => "email address has no at sign",
            Kind::NoHostPart => "email address has no host part",
            Kind::NoUserPart => "email address has no user part",
            Kind::NumericTld => "numeric TLD",
            Kind::QuoteUnclosed => "email has an unclosed quotation mark",
            Kind::TooManyLabels => "too many labels",
        }
    }
}

} // verus!
