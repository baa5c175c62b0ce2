//! Trusted wrappers around the diff engine: rendering a patch between two
//! byte texts, and parsing-and-applying hand-edited patch text.

use vstd::prelude::*;

verus! {

/// The unified-diff text that the diff engine renders between `original`
/// and `modified` with unlimited context, so that the whole text forms a
/// single hunk.
pub uninterp spec fn patch_text_of(original: Seq<u8>, modified: Seq<u8>) -> Seq<u8>;

/// Relies on diffy's `DiffOptions::create_patch_bytes` (with the context
/// length set to its maximum, so no sub-hunking happens) and
/// `Patch::to_bytes`: both are pure, so the rendered text is a function of
/// the two inputs alone.
#[verifier::external_body]
pub(crate) fn create_patch_text(original: &[u8], modified: &[u8]) -> (r: Vec<u8>)
    ensures
        r@ == patch_text_of(original@, modified@),
{
    let mut opts = diffy::DiffOptions::new();
    opts.set_context_len(usize::MAX);
    let patch = opts.create_patch_bytes(original, modified);
    patch.to_bytes()
}

/// Why a hand-edited patch could not be used: it did not parse as a
/// patch, or it parsed but did not apply to the hunk.  Each carries the
/// diff engine's message.
pub enum EditApplyError {
    Invalid(String),
    DoesNotApply(String),
}

/// Whether diffy's `Patch::from_bytes` parses the text.
pub uninterp spec fn patch_parses(text: Seq<u8>) -> bool;

/// Whether the text parses and the parsed patch applies to the base.
pub uninterp spec fn edited_patch_applies(base: Seq<u8>, text: Seq<u8>) -> bool;

/// The bytes that applying the parsed patch to the base produces.
pub uninterp spec fn edited_patch_result(base: Seq<u8>, text: Seq<u8>) -> Seq<u8>;

/// Relies on diffy's `Patch::from_bytes` composed with `apply_bytes`:
/// parse the edited text, then apply the parsed patch to the base.  Both
/// are pure functions of their byte arguments — parsing touches nothing
/// but the text, applying nothing but the base and the parsed value — so
/// whether the edit applies, and what it produces, are functions of the
/// two texts alone; a parse failure and an apply failure are told apart
/// in the error.
#[verifier::external_body]
pub(crate) fn apply_edited(base: &[u8], text: &[u8]) -> (r: Result<Vec<u8>, EditApplyError>)
    ensures
        (r is Ok) == edited_patch_applies(base@, text@),
        r matches Ok(b) ==> b@ == edited_patch_result(base@, text@),
        r matches Err(e) ==> ((e is Invalid) <==> !patch_parses(text@)),
{
    let patch = match diffy::Patch::from_bytes(text) {
        Ok(p) => p,
        Err(e) => return Err(EditApplyError::Invalid(format!("{e}"))),
    };
    match diffy::apply_bytes(base, &patch) {
        Ok(v) => Ok(v),
        Err(e) => Err(EditApplyError::DoesNotApply(format!("{e}"))),
    }
}

} // verus!
