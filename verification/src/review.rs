//! The per-hunk review state machine: choose, edit by hand, confirm a
//! retry, or finish with a decision.  All blocking work — showing the
//! diff, reading input, running the editor — happens outside; each answer
//! comes back in as an event and this module decides what follows.

use vstd::prelude::*;

use crate::diffwrap::{
    apply_edited, create_patch_text, edited_patch_applies, edited_patch_result, patch_parses,
    patch_text_of, EditApplyError,
};
use crate::menu::{MenuOption, PatchOption};
use crate::patch::{recount_spec, rewrite_patch_line_counts};
use crate::whitespace::{is_blank, is_blank_spec};

verus! {

/// Why the operator is asked whether to edit again.
#[derive(Copy, Clone, Debug, PartialEq, Eq, Structural)]
pub enum RetryReason {
    /// The edited text did not parse as a patch.
    InvalidPatch,
    /// The edited patch did not apply to the original hunk.
    DoesNotApply,
}

/// Where the review of one hunk stands.
#[derive(Debug)]
pub enum ReviewState {
    /// Show the diff and ask for a menu choice.
    Choosing,
    /// Run the editor on the rendered patch text.
    Editing,
    /// Ask the retry question for a failed hand edit.
    Confirming(RetryReason),
    /// The review is over with this decision.
    Done(PatchOption),
}

/// What happened outside since the last step.
#[derive(Debug)]
pub enum ReviewEvent {
    /// The operator chose a menu option.
    Chose(MenuOption),
    /// The input was `?` or unrecognized: help is shown and the menu
    /// offered again.
    Unrecognized,
    /// The editor finished: its text, or nothing if it failed.
    EditorDone(Option<Vec<u8>>),
    /// The answer to the retry question.
    Answered(bool),
}

/// One step's outcome: the next state, and a notice to print, if any.
pub struct StepResult {
    pub state: ReviewState,
    pub notice: Option<String>,
}

/// The text handed to the editor: the rendered patch between the hunk and
/// its replacement.
pub fn edit_text(original: &[u8], replaced: &[u8]) -> (r: Vec<u8>)
    ensures
        r@ == patch_text_of(original@, replaced@),
{
    create_patch_text(original, replaced)
}

/// The retry question for a failed hand edit.
pub fn retry_prompt(reason: RetryReason) -> (r: &'static str)
    ensures
        reason == RetryReason::InvalidPatch ==> r@ == (
        "Your patch is invalid. Edit again (saying \"no\" discards!) [y/n]?")@,
        reason == RetryReason::DoesNotApply ==> r@ == (
        "Your edited hunk does not apply. Edit again (saying \"no\" discards!) [y/n]?")@,
{
    match reason {
        RetryReason::InvalidPatch => "Your patch is invalid. Edit again (saying \"no\" discards!) [y/n]?",
        RetryReason::DoesNotApply => "Your edited hunk does not apply. Edit again (saying \"no\" discards!) [y/n]?",
    }
}

/// Drive the review one step.  A `Yes` choice materializes the already
/// computed replacement; `No` keeps the original; `Quit` keeps the
/// original and ends the run; `Edit` hands the patch text to the editor.
/// A failed or empty edit returns to the menu with a notice; an edit that
/// does not parse or apply asks whether to retry; answering no falls back
/// to keeping the original.
pub fn review_step(original: &[u8], replaced: &[u8], state: &ReviewState, event: ReviewEvent) -> (r:
    StepResult)
    requires
        !(state is Done),
        state is Choosing ==> event is Chose || event is Unrecognized,
        state is Editing ==> event is EditorDone,
        state is Confirming ==> event is Answered,
    ensures
        state is Choosing && event == ReviewEvent::Chose(MenuOption::Yes) ==> (r.state matches
            ReviewState::Done(PatchOption::WriteNew(b)) && b@ == replaced@ && r.notice is None),
        state is Choosing && event == ReviewEvent::Chose(MenuOption::No) ==> ((r.state matches
            ReviewState::Done(PatchOption::WriteOriginal)) && r.notice is None),
        state is Choosing && event == ReviewEvent::Chose(MenuOption::Quit) ==> ((r.state matches
            ReviewState::Done(PatchOption::Quit)) && r.notice is None),
        state is Choosing && event == ReviewEvent::Chose(MenuOption::Edit) ==> r.state is Editing
            && r.notice is None,
        state is Choosing && event is Unrecognized ==> r.state is Choosing && r.notice is None,
        state is Editing && (event matches ReviewEvent::EditorDone(None::<Vec<u8>>)) ==> (r.state
            is Choosing && r.notice is Some),
        state is Editing && (event matches ReviewEvent::EditorDone(Some(t)) && is_blank_spec(t@))
            ==> r.state is Choosing && r.notice is Some,
        state is Editing ==> (event matches ReviewEvent::EditorDone(Some(t)) ==> (!is_blank_spec(
            t@,
        ) ==> {
            let fixed = recount_spec(t@);
            &&& (edited_patch_applies(original@, fixed) ==> ((r.state matches ReviewState::Done(
                PatchOption::WriteNew(b),
            ) && b@ == edited_patch_result(original@, fixed)) && r.notice is None))
            &&& (!edited_patch_applies(original@, fixed) ==> ((r.state matches
                ReviewState::Confirming(reason) && ((reason == RetryReason::InvalidPatch)
                <==> !patch_parses(fixed))) && r.notice is Some))
        })),
        state is Confirming && event == ReviewEvent::Answered(true) ==> r.state is Editing
            && r.notice is None,
        state is Confirming && event == ReviewEvent::Answered(false) ==> ((r.state matches
            ReviewState::Done(PatchOption::WriteOriginal)) && r.notice is None),
{
    match (state, event) {
        (ReviewState::Choosing, ReviewEvent::Chose(choice)) => {
            match choice {
                MenuOption::Yes => {
                    let mut b: Vec<u8> = Vec::new();
                    b.extend_from_slice(replaced);
                    proof {
                        assert(b@ =~= replaced@);
                    }
                    StepResult { state: ReviewState::Done(PatchOption::WriteNew(b)), notice: None }
                },
                MenuOption::No => StepResult {
                    state: ReviewState::Done(PatchOption::WriteOriginal),
                    notice: None,
                },
                MenuOption::Quit => StepResult {
                    state: ReviewState::Done(PatchOption::Quit),
                    notice: None,
                },
                MenuOption::Edit => StepResult { state: ReviewState::Editing, notice: None },
            }
        },
        (ReviewState::Choosing, _) => StepResult { state: ReviewState::Choosing, notice: None },
        (ReviewState::Editing, ReviewEvent::EditorDone(edited)) => {
            match edited {
                None => StepResult {
                    state: ReviewState::Choosing,
                    notice: Some("The editor did not exit successfully.".to_owned()),
                },
                Some(text) => {
                    if is_blank(text.as_slice()) {
                        // editors may leave a trailing newline; treat
                        // whitespace-only text as an abandoned edit
                        StepResult {
                            state: ReviewState::Choosing,
                            notice: Some("The edited patch file was empty.".to_owned()),
                        }
                    } else {
                        let fixed = rewrite_patch_line_counts(text.as_slice());
                        match apply_edited(original, fixed.as_slice()) {
                            Ok(new_hunk) => StepResult {
                                state: ReviewState::Done(PatchOption::WriteNew(new_hunk)),
                                notice: None,
                            },
                            Err(EditApplyError::Invalid(e)) => StepResult {
                                state: ReviewState::Confirming(RetryReason::InvalidPatch),
                                notice: Some(e),
                            },
                            Err(EditApplyError::DoesNotApply(e)) => StepResult {
                                state: ReviewState::Confirming(RetryReason::DoesNotApply),
                                notice: Some(e),
                            },
                        }
                    }
                },
            }
        },
        (ReviewState::Confirming(_), ReviewEvent::Answered(again)) => {
            if again {
                StepResult { state: ReviewState::Editing, notice: None }
            } else {
                StepResult { state: ReviewState::Done(PatchOption::WriteOriginal), notice: None }
            }
        },
        _ => {
            proof {
                assert(false);
            }
            StepResult { state: ReviewState::Choosing, notice: None }
        },
    }
}

} // verus!
