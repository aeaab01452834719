//! Classification of output descriptors: the type tag of a descriptor and
//! the threshold of a sorted multisig.

use crate::error::{ThresholdError, ThresholdErrorView};
use crate::policy::spec_text_result;
use crate::text::{decimal, spec_decimal};
use core::str::FromStr;
use sapio_miniscript::descriptor::{DescriptorType, ShInner, WshInner};
use sapio_miniscript::{Descriptor, DescriptorPublicKey};
use vstd::prelude::*;

verus! {

/// The kinds of descriptor.
#[derive(Clone, Copy, Debug, PartialEq, Eq, Structural)]
pub enum DescriptorKind {
    /// A bare script, pay-to-pubkey included.
    Bare,
    /// A script hash that wraps no witness program and no sorted multisig.
    Sh,
    /// A public key hash.
    Pkh,
    /// A witness public key hash.
    Wpkh,
    /// A witness script hash.
    Wsh,
    /// A script hash that wraps a witness script hash.
    ShWsh,
    /// A script hash that wraps a witness public key hash.
    ShWpkh,
    /// A script hash of a sorted multisig.
    ShSortedMulti,
    /// A witness script hash of a sorted multisig.
    WshSortedMulti,
    /// A script hash that wraps a witness script hash of a sorted multisig.
    ShWshSortedMulti,
    /// A Taproot output.
    Tr,
}

/// The type tags, one field per tagged kind.
#[allow(non_snake_case)]
pub struct DescriptorTypeStruct {
    pub Bare: &'static str,
    pub Sh: &'static str,
    pub Pkh: &'static str,
    pub Wpkh: &'static str,
    pub Wsh: &'static str,
    pub ShWsh: &'static str,
    pub ShWpkh: &'static str,
    pub ShSortedMulti: &'static str,
    pub WshSortedMulti: &'static str,
    pub ShWshSortedMulti: &'static str,
}

/// The kind of the descriptor that a text stands for, or the parser's
/// message for a text that is no descriptor.
pub uninterp spec fn descriptor_kind(text: Seq<char>) -> Result<DescriptorKind, Seq<char>>;

/// The threshold of the sorted multisig that a descriptor holds directly
/// under a script hash, a witness script hash, or a script hash around a
/// witness script hash; none for any other text.
pub uninterp spec fn descriptor_threshold(text: Seq<char>) -> Option<usize>;

/// What the outcome of classifying a descriptor stands for.
pub open spec fn spec_classified(outcome: Result<DescriptorKind, String>) -> Result<
    DescriptorKind,
    Seq<char>,
> {
    match outcome {
        Ok(kind) => Ok(kind),
        Err(message) => Err(message@),
    }
}

/// Whether descriptors of a kind hold a sorted multisig.
pub open spec fn spec_holds_sorted_multi(kind: DescriptorKind) -> bool {
    kind == DescriptorKind::ShSortedMulti || kind == DescriptorKind::WshSortedMulti || kind
        == DescriptorKind::ShWshSortedMulti
}

/// The type tag of a kind; empty for the kinds that have no tag.
pub open spec fn spec_type_tag(kind: DescriptorKind) -> Seq<char> {
    match kind {
        DescriptorKind::Bare => "Bare"@,
        DescriptorKind::Sh => "Sh"@,
        DescriptorKind::Pkh => "Pkh"@,
        DescriptorKind::Wpkh => "Wpkh"@,
        DescriptorKind::Wsh => "Wsh"@,
        DescriptorKind::ShWsh => "ShWsh"@,
        DescriptorKind::ShSortedMulti => "ShSortedMulti"@,
        DescriptorKind::WshSortedMulti => "WshSortedMulti"@,
        DescriptorKind::ShWshSortedMulti => "ShWshSortedMulti"@,
        DescriptorKind::ShWpkh => ""@,
        DescriptorKind::Tr => ""@,
    }
}

/// The threshold of a descriptor, or why it has none to report.
pub open spec fn spec_threshold(text: Seq<char>) -> Result<usize, ThresholdErrorView> {
    match descriptor_kind(text) {
        Err(message) => Err(ThresholdErrorView::Parse(message)),
        Ok(kind) => match kind {
            DescriptorKind::ShSortedMulti | DescriptorKind::WshSortedMulti | DescriptorKind::ShWshSortedMulti => Ok(
                descriptor_threshold(text)->0,
            ),
            DescriptorKind::ShWsh => Err(ThresholdErrorView::NoNestedMultisig),
            DescriptorKind::Sh | DescriptorKind::ShWpkh | DescriptorKind::Wsh => Err(
                ThresholdErrorView::NoThreshold,
            ),
            DescriptorKind::Bare | DescriptorKind::Pkh | DescriptorKind::Wpkh | DescriptorKind::Tr => Err(
                ThresholdErrorView::NotThresholdType,
            ),
        },
    }
}

/// What the outcome of reading a threshold stands for.
pub open spec fn spec_threshold_result(outcome: Result<usize, ThresholdError>) -> Result<
    usize,
    ThresholdErrorView,
> {
    match outcome {
        Ok(k) => Ok(k),
        Err(error) => Err(error@),
    }
}

/// Calls `Descriptor::<DescriptorPublicKey>::from_str` and `desc_type` and
/// hands out the type, or the error's text. Trusted: the outcome is
/// `descriptor_kind` of the text.
#[verifier::external_body]
fn classify(text: &str) -> (kind: Result<DescriptorKind, String>)
    ensures
        spec_classified(kind) == descriptor_kind(text@),
{
    let parsed = Descriptor::<DescriptorPublicKey>::from_str(text).map_err(|error| error.to_string())?;
    Ok(match parsed.desc_type() {
        DescriptorType::Bare => DescriptorKind::Bare,
        DescriptorType::Sh => DescriptorKind::Sh,
        DescriptorType::Pkh => DescriptorKind::Pkh,
        DescriptorType::Wpkh => DescriptorKind::Wpkh,
        DescriptorType::Wsh => DescriptorKind::Wsh,
        DescriptorType::ShWsh => DescriptorKind::ShWsh,
        DescriptorType::ShWpkh => DescriptorKind::ShWpkh,
        DescriptorType::ShSortedMulti => DescriptorKind::ShSortedMulti,
        DescriptorType::WshSortedMulti => DescriptorKind::WshSortedMulti,
        DescriptorType::ShWshSortedMulti => DescriptorKind::ShWshSortedMulti,
        DescriptorType::Tr => DescriptorKind::Tr,
    })
}

/// Calls `Descriptor::<DescriptorPublicKey>::from_str` and takes the field
/// `k` out of the sorted multisig that the descriptor holds under `Sh`,
/// `Wsh` or `Sh` around `Wsh`. Trusted: the outcome is
/// `descriptor_threshold` of the text, and there is one exactly for the
/// three kinds that `desc_type` reports as sorted multisig.
#[verifier::external_body]
fn sorted_multi_threshold(text: &str) -> (k: Option<usize>)
    ensures
        k == descriptor_threshold(text@),
        k is Some <==> (descriptor_kind(text@) matches Ok(kind) && spec_holds_sorted_multi(kind)),
{
    match Descriptor::<DescriptorPublicKey>::from_str(text).ok()? {
        Descriptor::Sh(sh) => match sh.into_inner() {
            ShInner::SortedMulti(multi) => Some(multi.k),
            ShInner::Wsh(wsh) => match wsh.into_inner() {
                WshInner::SortedMulti(multi) => Some(multi.k),
                WshInner::Ms(_) => None,
            },
            ShInner::Wpkh(_) | ShInner::Ms(_) => None,
        },
        Descriptor::Wsh(wsh) => match wsh.into_inner() {
            WshInner::SortedMulti(multi) => Some(multi.k),
            WshInner::Ms(_) => None,
        },
        _ => None,
    }
}

/// The type tags.
pub fn get_descriptor_types() -> (types: DescriptorTypeStruct)
    ensures
        types.Bare@ == spec_type_tag(DescriptorKind::Bare),
        types.Sh@ == spec_type_tag(DescriptorKind::Sh),
        types.Pkh@ == spec_type_tag(DescriptorKind::Pkh),
        types.Wpkh@ == spec_type_tag(DescriptorKind::Wpkh),
        types.Wsh@ == spec_type_tag(DescriptorKind::Wsh),
        types.ShWsh@ == spec_type_tag(DescriptorKind::ShWsh),
        types.ShWpkh@ == "ShWpkh"@,
        types.ShSortedMulti@ == spec_type_tag(DescriptorKind::ShSortedMulti),
        types.WshSortedMulti@ == spec_type_tag(DescriptorKind::WshSortedMulti),
        types.ShWshSortedMulti@ == spec_type_tag(DescriptorKind::ShWshSortedMulti),
{
    DescriptorTypeStruct {
        Bare: "Bare",
        Sh: "Sh",
        Pkh: "Pkh",
        Wpkh: "Wpkh",
        Wsh: "Wsh",
        ShWsh: "ShWsh",
        ShWpkh: "ShWpkh",
        ShSortedMulti: "ShSortedMulti",
        WshSortedMulti: "WshSortedMulti",
        ShWshSortedMulti: "ShWshSortedMulti",
    }
}

/// The type tag of a kind.
pub fn type_tag(kind: DescriptorKind) -> (tag: &'static str)
    ensures
        tag@ == spec_type_tag(kind),
{
    match kind {
        DescriptorKind::Bare => "Bare",
        DescriptorKind::Sh => "Sh",
        DescriptorKind::Pkh => "Pkh",
        DescriptorKind::Wpkh => "Wpkh",
        DescriptorKind::Wsh => "Wsh",
        DescriptorKind::ShWsh => "ShWsh",
        DescriptorKind::ShSortedMulti => "ShSortedMulti",
        DescriptorKind::WshSortedMulti => "WshSortedMulti",
        DescriptorKind::ShWshSortedMulti => "ShWshSortedMulti",
        DescriptorKind::ShWpkh => "",
        DescriptorKind::Tr => "",
    }
}

/// Parses a descriptor and says of which kind it is.
pub fn classify_descriptor(s: &str) -> (kind: Result<DescriptorKind, String>)
    ensures
        spec_classified(kind) == descriptor_kind(s@),
{
    classify(s)
}

/// Parses a descriptor and returns its type tag; the parser's message for a
/// text that is no descriptor.
pub fn get_script_type(s: &str) -> (tag: Result<String, String>)
    ensures
        descriptor_kind(s@) matches Ok(kind) ==> spec_text_result(tag) == Ok::<_, Seq<char>>(
            spec_type_tag(kind),
        ),
        descriptor_kind(s@) matches Err(message) ==> spec_text_result(tag) == Err::<Seq<char>, _>(
            message,
        ),
{
    match classify(s) {
        Ok(kind) => Ok(type_tag(kind).to_owned()),
        Err(message) => Err(message),
    }
}

/// Parses a descriptor and returns the threshold of its sorted multisig.
pub fn threshold_of(s: &str) -> (threshold: Result<usize, ThresholdError>)
    ensures
        spec_threshold_result(threshold) == spec_threshold(s@),
{
    match classify(s) {
        Err(message) => Err(ThresholdError::Parse(message)),
        Ok(kind) => match kind {
            DescriptorKind::ShSortedMulti | DescriptorKind::WshSortedMulti | DescriptorKind::ShWshSortedMulti => {
                match sorted_multi_threshold(s) {
                    Some(k) => Ok(k),
                    None => Err(ThresholdError::NoThreshold),
                }
            },
            DescriptorKind::ShWsh => Err(ThresholdError::NoNestedMultisig),
            DescriptorKind::Sh | DescriptorKind::ShWpkh | DescriptorKind::Wsh => Err(
                ThresholdError::NoThreshold,
            ),
            DescriptorKind::Bare | DescriptorKind::Pkh | DescriptorKind::Wpkh | DescriptorKind::Tr => Err(
                ThresholdError::NotThresholdType,
            ),
        },
    }
}

/// Parses a descriptor and returns the threshold of its sorted multisig as
/// decimal text, or the message that says why it has none.
pub fn get_threshold_count(s: &str) -> (count: Result<String, String>)
    ensures
        spec_threshold(s@) matches Ok(k) ==> spec_text_result(count) == Ok::<_, Seq<char>>(
            spec_decimal(k as nat),
        ),
        spec_threshold(s@) matches Err(error) ==> spec_text_result(count) == Err::<Seq<char>, _>(
            crate::error::spec_threshold_message(error),
        ),
{
    match threshold_of(s) {
        Ok(k) => Ok(decimal(k)),
        Err(error) => Err(error.message()),
    }
}

} // verus!
