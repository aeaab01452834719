//! The errors of the library and their messages.

use vstd::prelude::*;
use vstd::string::StringExecFns;

verus! {

/// Why a Taproot output could not be built.
#[derive(Debug)]
pub enum BuildError {
    /// A value of the key table is not a valid x-only public key; holds the
    /// key parser's message.
    InvalidKey(String),
    /// A fragment is not a valid Tapscript Miniscript; holds the parser's
    /// message.
    ScriptParse(String),
    /// A fragment names a key that the key table lacks; holds the name.
    MissingKey(String),
    /// A fragment asks for a key hash, which Tapscript translation does not
    /// support; holds the name.
    UnsupportedKeyContext(String),
    /// No candidate for the unspendable internal key was a curve point.
    NoInternalKey,
    /// The tweak could not be added to the internal key.
    InvalidTweak,
}

/// What a build error stands for.
pub enum BuildErrorView {
    InvalidKey(Seq<char>),
    ScriptParse(Seq<char>),
    MissingKey(Seq<char>),
    UnsupportedKeyContext(Seq<char>),
    NoInternalKey,
    InvalidTweak,
}

impl View for BuildError {
    type V = BuildErrorView;

    open spec fn view(&self) -> BuildErrorView {
        match self {
            BuildError::InvalidKey(message) => BuildErrorView::InvalidKey(message@),
            BuildError::ScriptParse(message) => BuildErrorView::ScriptParse(message@),
            BuildError::MissingKey(name) => BuildErrorView::MissingKey(name@),
            BuildError::UnsupportedKeyContext(name) => BuildErrorView::UnsupportedKeyContext(name@),
            BuildError::NoInternalKey => BuildErrorView::NoInternalKey,
            BuildError::InvalidTweak => BuildErrorView::InvalidTweak,
        }
    }
}

/// The message of a build error.
pub open spec fn spec_build_message(error: BuildErrorView) -> Seq<char> {
    match error {
        BuildErrorView::InvalidKey(message) => message,
        BuildErrorView::ScriptParse(message) => message,
        BuildErrorView::MissingKey(name) => "Missing Key: "@ + name,
        BuildErrorView::UnsupportedKeyContext(name) => "No PKH Support for "@ + name,
        BuildErrorView::NoInternalKey => "No unspendable internal key found"@,
        BuildErrorView::InvalidTweak => "Tap tweak failed"@,
    }
}

impl BuildError {
    /// The message of this error, as shown to a user.
    pub fn message(&self) -> (text: String)
        ensures
            text@ == spec_build_message(self@),
    {
        match self {
            BuildError::InvalidKey(message) => message.clone(),
            BuildError::ScriptParse(message) => message.clone(),
            BuildError::MissingKey(name) => String::from_str("Missing Key: ").concat(name.as_str()),
            BuildError::UnsupportedKeyContext(name) => String::from_str("No PKH Support for ").concat(
                name.as_str(),
            ),
            BuildError::NoInternalKey => String::from_str("No unspendable internal key found"),
            BuildError::InvalidTweak => String::from_str("Tap tweak failed"),
        }
    }
}

/// Why a policy could not be compiled.
#[derive(Debug)]
pub enum PolicyError {
    /// The text is not a policy; holds the parser's message.
    Parse(String),
    /// The policy has no valid compilation: the compiler cannot weigh it, or
    /// finds no script for it; holds the message that says which.
    Compile(String),
}

/// What a policy error stands for.
pub enum PolicyErrorView {
    Parse(Seq<char>),
    Compile(Seq<char>),
}

/// The message of a policy error.
pub open spec fn spec_policy_message(error: PolicyErrorView) -> Seq<char> {
    match error {
        PolicyErrorView::Parse(message) => message,
        PolicyErrorView::Compile(message) => message,
    }
}

impl View for PolicyError {
    type V = PolicyErrorView;

    open spec fn view(&self) -> PolicyErrorView {
        match self {
            PolicyError::Parse(message) => PolicyErrorView::Parse(message@),
            PolicyError::Compile(message) => PolicyErrorView::Compile(message@),
        }
    }
}

impl PolicyError {
    /// The message of this error, as shown to a user.
    pub fn message(&self) -> (text: String)
        ensures
            text@ == spec_policy_message(self@),
    {
        match self {
            PolicyError::Parse(message) => message.clone(),
            PolicyError::Compile(message) => message.clone(),
        }
    }
}

/// Why a descriptor has no threshold to report.
#[derive(Debug)]
pub enum ThresholdError {
    /// The text is not a descriptor; holds the parser's message.
    Parse(String),
    /// A script hash wraps a witness script hash that is no sorted multisig.
    NoNestedMultisig,
    /// A script hash or witness script hash holds no sorted multisig.
    NoThreshold,
    /// The descriptor is of a kind that never has a threshold.
    NotThresholdType,
}

/// What a threshold error stands for.
pub enum ThresholdErrorView {
    Parse(Seq<char>),
    NoNestedMultisig,
    NoThreshold,
    NotThresholdType,
}

impl View for ThresholdError {
    type V = ThresholdErrorView;

    open spec fn view(&self) -> ThresholdErrorView {
        match self {
            ThresholdError::Parse(message) => ThresholdErrorView::Parse(message@),
            ThresholdError::NoNestedMultisig => ThresholdErrorView::NoNestedMultisig,
            ThresholdError::NoThreshold => ThresholdErrorView::NoThreshold,
            ThresholdError::NotThresholdType => ThresholdErrorView::NotThresholdType,
        }
    }
}

/// The message of a threshold error.
pub open spec fn spec_threshold_message(error: ThresholdErrorView) -> Seq<char> {
    match error {
        ThresholdErrorView::Parse(message) => message,
        ThresholdErrorView::NoNestedMultisig => "no multisig found in nested wsh"@,
        ThresholdErrorView::NoThreshold => "No threshold"@,
        ThresholdErrorView::NotThresholdType => "Descriptor type does not have threshold"@,
    }
}

impl ThresholdError {
    /// The message of this error, as shown to a user.
    pub fn message(&self) -> (text: String)
        ensures
            text@ == spec_threshold_message(self@),
    {
        match self {
            ThresholdError::Parse(message) => message.clone(),
            ThresholdError::NoNestedMultisig => String::from_str("no multisig found in nested wsh"),
            ThresholdError::NoThreshold => String::from_str("No threshold"),
            ThresholdError::NotThresholdType => String::from_str(
                "Descriptor type does not have threshold",
            ),
        }
    }
}

} // verus!
