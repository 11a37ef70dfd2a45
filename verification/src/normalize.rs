//! The normal form of a single name.

use unicode_normalization::UnicodeNormalization;
use vstd::prelude::*;

verus! {

/// The canonical composition (NFC) of a text, as `unicode_normalization`
/// computes it.
pub uninterp spec fn nfc_of(text: Seq<char>) -> Seq<char>;

/// A text is normalized when canonical composition leaves it as it is.
pub open spec fn is_nfc(text: Seq<char>) -> bool {
    nfc_of(text) == text
}

/// What a name has to become: nothing where it is normalized already, else
/// its canonical composition.
pub open spec fn due_form(name: Seq<char>) -> Option<Seq<char>> {
    if is_nfc(name) {
        None
    } else {
        Some(nfc_of(name))
    }
}

/// The text of a name that may be there.
pub open spec fn text(name: Option<String>) -> Option<Seq<char>> {
    match name {
        Some(name) => Some(name@),
        None => None,
    }
}

/// Calls `unicode_normalization::is_nfc`, the authoritative test for
/// Normalization Form C. Trusted: the answer is `true` exactly for the texts
/// that the crate's own `nfc` hands back unchanged.
#[verifier::external_body]
fn nfc_check(name: &str) -> (normal: bool)
    ensures
        normal == is_nfc(name@),
{
    unicode_normalization::is_nfc(name)
}

/// Calls `UnicodeNormalization::nfc` on the name and collects the characters
/// that it yields. Trusted: the characters are the name's canonical
/// composition, and that text is itself in Normalization Form C.
#[verifier::external_body]
fn nfc_form(name: &str) -> (normal: String)
    ensures
        normal@ == nfc_of(name@),
        is_nfc(normal@),
{
    name.nfc().collect::<String>()
}

/// Whether `name` is already in Normalization Form C.
pub fn is_normalized(name: &str) -> (normal: bool)
    ensures
        normal == is_nfc(name@),
{
    nfc_check(name)
}

/// The Normalization Form C of `name`. The result is always normalized, so
/// normalizing twice gives what normalizing once gives.
pub fn normalize(name: &str) -> (normal: String)
    ensures
        normal@ == nfc_of(name@),
        is_nfc(normal@),
        nfc_of(normal@) == nfc_of(name@),
{
    nfc_form(name)
}

/// Checks `name` and, only where it is not normalized, computes what it has
/// to become. What comes back is itself normalized.
pub fn correction(name: &str) -> (form: Option<String>)
    ensures
        text(form) == due_form(name@),
        form matches Some(target) ==> is_nfc(target@),
{
    if is_normalized(name) {
        None
    } else {
        Some(normalize(name))
    }
}

} // verus!
