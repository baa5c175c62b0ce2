use repatch::patch::{format_header, rewrite_patch_line_counts, rewrite_patch_line_start};

#[test]
fn test_format_header() {
    assert_eq!(format_header(1, 2, 3, 4), b"@@ -1,2 +3,4 @@".to_vec());
    assert_eq!(format_header(0, 0, 10, 123), b"@@ -0,0 +10,123 @@".to_vec());
}

#[test]
fn test_recount_rewrites_counts() {
    let patch = b"--- a\n+++ b\n@@ -1,9 +1,9 @@\n ctx\n-old\n+new\n";
    let fixed = rewrite_patch_line_counts(patch);
    assert_eq!(
        fixed,
        b"--- a\n+++ b\n@@ -1,2 +1,2 @@\n ctx\n-old\n+new\n".to_vec()
    );
}

#[test]
fn test_recount_idempotent_concrete() {
    let patch = b"--- a\n+++ b\n@@ -1,9 +1,9 @@\n ctx\n-old\n+new\n";
    let once = rewrite_patch_line_counts(patch);
    let twice = rewrite_patch_line_counts(&once);
    assert_eq!(once, twice);
}

#[test]
fn test_recount_unchanged_cases() {
    // counts already match
    let ok = b"--- a\n+++ b\n@@ -1,2 +1,2 @@\n ctx\n-old\n+new\n";
    assert_eq!(rewrite_patch_line_counts(ok), ok.to_vec());
    // malformed content line aborts the recount
    let bad = b"--- a\n+++ b\n@@ -1,9 +1,9 @@\nxoops\n";
    assert_eq!(rewrite_patch_line_counts(bad), bad.to_vec());
    // no header at all
    let none = b"just\nsome\ntext\nhere\n";
    assert_eq!(rewrite_patch_line_counts(none), none.to_vec());
}

#[test]
fn test_shift_round_trip_plain() {
    let patch = b"--- a\n+++ b\n@@ -1,2 +1,2 @@\n ctx\n-old\n+new\n";
    let shifted = rewrite_patch_line_start(patch, 41, false).unwrap();
    assert_eq!(
        shifted,
        b"--- a\n+++ b\n@@ -42,2 +42,2 @@\n ctx\n-old\n+new\n".to_vec()
    );
    let back = rewrite_patch_line_start(&shifted, -41, false).unwrap();
    assert_eq!(back, patch.to_vec());
}

#[test]
fn test_shift_round_trip_ansi() {
    let patch =
        b"--- a\n+++ b\n\x1b[0m\x1b[36m@@ -1,2 +1,2 @@\x1b[0m\n ctx\n-old\n+new\n";
    let shifted = rewrite_patch_line_start(patch, 5, true).unwrap();
    assert_eq!(
        shifted,
        b"--- a\n+++ b\n\x1b[0m\x1b[36m@@ -6,2 +6,2 @@\x1b[0m\n ctx\n-old\n+new\n".to_vec()
    );
    let back = rewrite_patch_line_start(&shifted, -5, true).unwrap();
    assert_eq!(back, patch.to_vec());
}

#[test]
fn test_shift_failures() {
    // no fourth line
    assert_eq!(
        rewrite_patch_line_start(b"--- a\n+++ b\n@@ -1,2 +1,2 @@\n", 1, false),
        None
    );
    // underflow of the start offset
    assert_eq!(
        rewrite_patch_line_start(b"--- a\n+++ b\n@@ -1,2 +1,2 @@\n ctx\n", -2, false),
        None
    );
    // the color frame is demanded but missing
    assert_eq!(
        rewrite_patch_line_start(b"--- a\n+++ b\n@@ -1,2 +1,2 @@\n ctx\n", 1, true),
        None
    );
}
