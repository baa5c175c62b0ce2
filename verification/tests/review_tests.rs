use repatch::menu::{MenuOption, PatchOption};
use repatch::review::{
    edit_text, retry_prompt, review_step, ReviewEvent, ReviewState, RetryReason,
};
use repatch::whitespace::is_blank;

#[test]
fn test_is_blank() {
    assert!(is_blank(b""));
    assert!(is_blank(b" \t\r\n"));
    assert!(!is_blank(b" x "));
    // Unicode whitespace counts: no-break space, thin space, ideographic space
    assert!(is_blank("\u{00A0}\u{2009}\u{3000}".as_bytes()));
    assert!(is_blank(b"\xC2\xA0\n"));
    // a zero-width space is not whitespace, nor is invalid UTF-8
    assert!(!is_blank("\u{200B}".as_bytes()));
    assert!(!is_blank(b"\xC2"));
    assert!(!is_blank(b"\xC2\xA1"));
}

#[test]
fn test_review_menu_choices() {
    let original = b"old line\n";
    let replaced = b"new line\n";

    let r = review_step(
        original,
        replaced,
        &ReviewState::Choosing,
        ReviewEvent::Chose(MenuOption::Yes),
    );
    match r.state {
        ReviewState::Done(PatchOption::WriteNew(b)) => assert_eq!(b, replaced.to_vec()),
        _ => panic!("yes must materialize the replacement"),
    }
    assert!(r.notice.is_none());

    let r = review_step(
        original,
        replaced,
        &ReviewState::Choosing,
        ReviewEvent::Chose(MenuOption::No),
    );
    assert!(matches!(r.state, ReviewState::Done(PatchOption::WriteOriginal)));

    let r = review_step(
        original,
        replaced,
        &ReviewState::Choosing,
        ReviewEvent::Chose(MenuOption::Quit),
    );
    assert!(matches!(r.state, ReviewState::Done(PatchOption::Quit)));

    let r = review_step(
        original,
        replaced,
        &ReviewState::Choosing,
        ReviewEvent::Chose(MenuOption::Edit),
    );
    assert!(matches!(r.state, ReviewState::Editing));

    let r = review_step(
        original,
        replaced,
        &ReviewState::Choosing,
        ReviewEvent::Unrecognized,
    );
    assert!(matches!(r.state, ReviewState::Choosing));
}

#[test]
fn test_review_edit_success() {
    // a hand edit that keeps the rendered patch as-is applies cleanly and
    // produces the replacement
    let original = b"keep\nold line\n";
    let replaced = b"keep\nnew line\n";
    let patch_text = edit_text(original, replaced);
    // the rendered text is a real unified diff, not the input handed back
    assert_ne!(patch_text, original.to_vec());
    assert!(patch_text.starts_with(b"---"));

    let r = review_step(
        original,
        replaced,
        &ReviewState::Editing,
        ReviewEvent::EditorDone(Some(patch_text)),
    );
    match r.state {
        ReviewState::Done(PatchOption::WriteNew(b)) => assert_eq!(b, replaced.to_vec()),
        other => panic!("expected the edit to apply, got {other:?}"),
    }
}

#[test]
fn test_review_edit_modified_patch() {
    // editing the patch to a different replacement applies that text
    let original = b"keep\nold line\n";
    let replaced = b"keep\nnew line\n";
    let patch_text = edit_text(original, replaced);
    let edited = String::from_utf8(patch_text)
        .unwrap()
        .replace("new line", "edited line")
        .into_bytes();
    let r = review_step(
        original,
        replaced,
        &ReviewState::Editing,
        ReviewEvent::EditorDone(Some(edited)),
    );
    match r.state {
        ReviewState::Done(PatchOption::WriteNew(b)) => {
            assert_eq!(b, b"keep\nedited line\n".to_vec())
        },
        other => panic!("expected the edit to apply, got {other:?}"),
    }
}

#[test]
fn test_review_edit_wrong_counts_are_recomputed() {
    // a hand edit that adds a line without fixing the header counts still
    // applies, because the counts are recomputed first
    let original = b"keep\nold line\n";
    let replaced = b"keep\nnew line\n";
    let patch_text = edit_text(original, replaced);
    let edited = String::from_utf8(patch_text)
        .unwrap()
        .replace("+new line", "+new line\n+extra line")
        .into_bytes();
    let r = review_step(
        original,
        replaced,
        &ReviewState::Editing,
        ReviewEvent::EditorDone(Some(edited)),
    );
    match r.state {
        ReviewState::Done(PatchOption::WriteNew(b)) => {
            assert_eq!(b, b"keep\nnew line\nextra line\n".to_vec())
        },
        other => panic!("expected the edit to apply, got {other:?}"),
    }
}

#[test]
fn test_review_edit_failures() {
    let original = b"keep\nold line\n";
    let replaced = b"keep\nnew line\n";

    // editor failed
    let r = review_step(
        original,
        replaced,
        &ReviewState::Editing,
        ReviewEvent::EditorDone(None),
    );
    assert!(matches!(r.state, ReviewState::Choosing));
    assert_eq!(r.notice.as_deref(), Some("The editor did not exit successfully."));

    // edited text is blank
    let r = review_step(
        original,
        replaced,
        &ReviewState::Editing,
        ReviewEvent::EditorDone(Some(b"  \n".to_vec())),
    );
    assert!(matches!(r.state, ReviewState::Choosing));
    assert_eq!(r.notice.as_deref(), Some("The edited patch file was empty."));

    // Unicode-whitespace-only edits count as abandoned too
    let r = review_step(
        original,
        replaced,
        &ReviewState::Editing,
        ReviewEvent::EditorDone(Some("\u{2009}\n".as_bytes().to_vec())),
    );
    assert!(matches!(r.state, ReviewState::Choosing));
    assert_eq!(r.notice.as_deref(), Some("The edited patch file was empty."));

    // edited text with a garbled hunk header does not parse
    let r = review_step(
        original,
        replaced,
        &ReviewState::Editing,
        ReviewEvent::EditorDone(Some(b"--- a\n+++ b\n@@ bogus @@\n x\n".to_vec())),
    );
    assert!(matches!(
        r.state,
        ReviewState::Confirming(RetryReason::InvalidPatch)
    ));
    assert!(r.notice.is_some());

    // a well-formed patch that does not apply to this hunk
    let bad = edit_text(b"keep\nsomething else entirely\n", b"keep\nmismatch\n");
    let r = review_step(
        original,
        replaced,
        &ReviewState::Editing,
        ReviewEvent::EditorDone(Some(bad)),
    );
    assert!(matches!(
        r.state,
        ReviewState::Confirming(RetryReason::DoesNotApply)
    ));
    assert!(r.notice.is_some());

    // retry question: yes edits again, no discards
    let r = review_step(
        original,
        replaced,
        &ReviewState::Confirming(RetryReason::InvalidPatch),
        ReviewEvent::Answered(true),
    );
    assert!(matches!(r.state, ReviewState::Editing));
    let r = review_step(
        original,
        replaced,
        &ReviewState::Confirming(RetryReason::InvalidPatch),
        ReviewEvent::Answered(false),
    );
    assert!(matches!(r.state, ReviewState::Done(PatchOption::WriteOriginal)));
}

#[test]
fn test_retry_prompts() {
    assert_eq!(
        retry_prompt(RetryReason::InvalidPatch),
        "Your patch is invalid. Edit again (saying \"no\" discards!) [y/n]?"
    );
    assert_eq!(
        retry_prompt(RetryReason::DoesNotApply),
        "Your edited hunk does not apply. Edit again (saying \"no\" discards!) [y/n]?"
    );
}
