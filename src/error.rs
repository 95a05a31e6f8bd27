//! Errors of the library.
use vstd::prelude::*;

verus! {

/// A caveat that did not hold: the block it came from (`None` for one the
/// verifier supplied) and its position there.
#[derive(Clone, Copy, Debug, PartialEq, Eq)]
pub struct FailedCaveat {
    pub block: Option<usize>,
    pub index: usize,
}

/// Everything that can go wrong when building or verifying a token.
#[derive(Clone, Debug, PartialEq, Eq)]
pub enum Error {
    /// Text that does not follow the datalog syntax.
    ParseError,
    /// An id with no interned name.
    UnknownSymbol(u64),
    /// A set that mixes variants, or holds a variable or a set.
    InvalidSet,
    /// The solver reached its bound on iterations or facts.
    EvaluationLimitExceeded,
    /// An expression that is not a comparison of a variable with a value.
    InvalidConstraint,
    /// A symbol table would exceed the range of ids.
    TooManySymbols,
    /// The signature of the block at this position does not verify.
    InvalidSignature(usize),
    /// The block at this position is not the one its signature covers.
    BlockMismatch(usize),
    /// Blocks that introduce the same name twice.
    DuplicateSymbols,
    /// A token without blocks, or with blocks out of order.
    InvalidBlockIndex,
    /// The token is sealed: no block can be appended.
    AlreadySealed,
    /// Caveats that did not hold.
    FailedCaveats(Vec<FailedCaveat>),
    /// The policy at this position matched and denies.
    DeniedByPolicy(usize),
    /// No policy matched.
    NoMatchingPolicy,
}

} // verus!
