use vstd::prelude::*;

verus! {

/// A handle to one resolved function address inside one loaded module.
///
/// `module` is the number of the module copy the address belongs to, `slot`
/// the index of the pointer table entry the token was published into.
#[derive(Clone, Copy, Debug, PartialEq, Eq, Structural)]
pub struct Token {
    pub module: u64,
    pub slot: usize,
    pub addr: usize,
}

/// The failures the runtime distinguishes.
#[derive(Clone, Copy, Debug, PartialEq, Eq, Structural)]
pub enum HotswapError {
    /// A name was looked up that was never registered.
    UnknownFunction,
    /// The entry exists but no module has published a token into it yet.
    NotInitialized,
    /// The artifact could not be copied or loaded, or no fresh copy number is left.
    LoadFailure,
    /// A registered name has no resolved address in the new module.
    SymbolResolutionFailure,
    /// A module was about to be released while a token into it was still held.
    RetirementViolation,
}

} // verus!
